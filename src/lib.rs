//! Turns a directory tree into one text document: a depth-first walk is
//! filtered by name (hidden entries, file extensions), and each selected
//! file becomes a block with a header line.

pub mod output;
pub mod scan;
pub mod walk;
