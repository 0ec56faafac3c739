//! Index and cache engine for a repository of versioned package archives.
//!
//! The library derives an in-memory, queryable package index from a
//! directory tree of archive files, keeps a per-version cache of derived
//! data (manifest copy, content listing), detects staleness, and
//! reconciles the index with filesystem changes.  All filesystem and
//! archive I/O stays outside; the engine works on plain values handed in
//! by its caller.

pub mod auth;
pub mod cache;
pub mod codec;
pub mod errors;
pub mod filename;
pub mod history;
pub mod laws;
pub mod manager;
pub mod manifest;
pub mod notify;
pub mod outside;
pub mod package;
pub mod search;
pub mod strutil;
pub mod version;

use vstd::prelude::*;

verus! {

/// The reserved extension of package archive files.
pub const ARCHIVE_EXT: &'static str = "nest";

} // verus!
