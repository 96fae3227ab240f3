//! Quotes from a corpus of plain text files: which files of a location are
//! candidates, the choice of one of them with a chance in proportion to its
//! size, the split of a file into quote records, the records that a
//! shortness level admits, and the search for a pattern.
//!
//! The library reads no file and prints nothing. Its caller looks at the
//! file system and hands over what it found as plain values.
pub mod file;
pub mod fortune;
pub mod random;
pub mod text;
