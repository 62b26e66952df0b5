//! Detects duplicated blocks of text across a corpus of files: every maximal
//! run of at least `min_lines` lines that appears verbatim (ignoring leading
//! and trailing whitespace per line) in two or more places is reported once.

pub mod collision;
pub mod extend;
pub mod index;
pub mod hashing;
pub mod ignore;
pub mod options;
pub mod pipeline;
pub mod registry;
pub mod report;
pub mod rolling;
pub mod signatures;
