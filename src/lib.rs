//! Document ingestion for a static-site generator: a tokenizer and a
//! token-tree parser for a small front-matter dialect, and the collation of
//! parsed key/value pairs into a typed document record.

pub mod category;
pub mod config;
pub mod document;
pub mod index;
pub mod ingot;
pub mod parser;
pub mod text;
pub mod token;
pub mod tokenizer;
