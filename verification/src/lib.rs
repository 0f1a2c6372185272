//! A small dotfiles manager: tracked files are relocated into a repository
//! directory and replaced by symbolic links, and a persisted manifest records
//! the mapping so the links can be recreated, reversed, or checked later —
//! on this machine or on another one with a different home directory.

pub mod config;
pub mod error;
pub mod fs;
pub mod manifest;
pub mod path;
pub mod path_ext;
pub mod service;
pub mod symlink;
pub mod text;

use vstd::prelude::*;

verus! {

/// File name of the on-disk manifest inside the repository directory.
pub const MANIFEST_FILE_NAME: &'static str = "dot.toml";

} // verus!
