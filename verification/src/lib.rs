//! Core of a local package-catalog client: locale-folded text normalisation,
//! a search index over catalog entries, macro-based path expansion, a
//! modification-time/size keyed file-hash cache, and content-hash based
//! detection of installed versions.

pub mod cache;
pub mod catalog;
pub mod config;
pub mod dates;
pub mod detect;
pub mod entry;
pub mod expand;
pub mod hashing;
pub mod pathutil;
pub mod strutil;
pub mod text;
