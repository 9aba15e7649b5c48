//! Concatenates many single-document JSON files into one JSON-array bundle
//! per directory, under a choice of compression codec.
//!
//! The crate classifies files by name suffix ([`compress`]), plans which
//! directories to process and where their artifacts go ([`plan`]), and runs
//! the per-directory concatenation engine ([`cat`]) that sorts, decodes,
//! parses and bundles the files' documents into one artifact ([`typ`]).
pub mod bytes;
pub mod cat;
pub mod compress;
pub mod plan;
pub mod typ;
