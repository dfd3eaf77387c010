//! A file-name search library.
//!
//! A background scan walks configured root folders and writes, per volume, a
//! compact database of every pathname (and optionally file size).  Queries
//! compile a token list into a small program of matching instructions and
//! evaluate it against each stored pathname without touching the filesystem.

pub mod chars;
pub mod cli_config;
pub mod codec;
pub mod config;
pub mod expand;
pub mod filter;
pub mod find;
pub mod glob;
pub mod locate;
pub mod selection;
pub mod tokenizer;
pub mod update;
