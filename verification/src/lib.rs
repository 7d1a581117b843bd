//! Verified core of CreeperCLI, a tool that serves a game project's script tree to the
//! game editor and writes back what the editor sends.
//!
//! - `tree`: the project tree and its mathematical value.
//! - `scan`: the served tree built from a directory listing.
//! - `trim`: what changed since the previous read; `sync`: answering the editor's polls.
//! - `mapping`: the JSON object the editor reads.
//! - `alter`: recording new contents for a file.
//! - `post`: decoding the editor's requests; `writes`: the files to write.
//! - `settings`: `creeper.toml` and the server configuration.
//! - `cli`: the command line; `release`: choosing and unpacking a self-update.
//! - `text`, `paths`, `json`: text, path and JSON helpers.
#![allow(unused_imports)]

pub mod alter;
pub mod cli;
pub mod json;
pub mod mapping;
pub mod paths;
pub mod post;
pub mod release;
pub mod scan;
pub mod settings;
pub mod sync;
pub mod text;
pub mod tree;
pub mod trim;
pub mod writes;
