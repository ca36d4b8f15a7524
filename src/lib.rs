//! Templates and backups for development projects: a small configuration
//! language, its tokenizer and section parser, and a multi-pattern
//! substitution engine that fills template files with resolved variables.
pub mod chars;
pub mod data;
pub mod file;

pub use data::version;
