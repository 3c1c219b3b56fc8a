//! Reading the output of the version-control tool: the list of commits that
//! its log command prints, and the single commit with per-file statistics
//! that its show command prints.
//!
//! The readers are `log` and `show`. They rest on `lines`, `chunks` and
//! `numstat` for the shape of the text and on `text` for characters, words
//! and numbers. `commit` holds the records, `error` the ways in which a
//! text can fail to be read, and `format` the proofs that what the tool
//! prints for given records is read back as those records.

pub mod chunks;
pub mod commit;
pub mod error;
pub mod format;
pub mod lines;
pub mod log;
pub mod numstat;
pub mod show;
pub mod text;
