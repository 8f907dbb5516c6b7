//! A local workspace manager for version-controlled repository clones.
//!
//! The library keeps a catalog of known repositories, discovers new ones by
//! selecting repository roots out of a directory-tree snapshot, resolves
//! short textual queries such as `github.com/user/repo` into on-disk paths
//! and remote URLs, and encodes the catalog into a durable cache text.

use vstd::prelude::*;

pub mod cache;
pub mod catalog;
pub mod commands;
pub mod matcher;
pub mod query;
pub mod scanner;
pub mod workspace;
pub mod repository;

verus! {

/// The failures that abort a top-level operation.
#[derive(Clone, Copy, PartialEq, Eq, Structural, Debug)]
pub enum Error {
    /// A configured exclusion pattern does not compile.
    ConfigError,
    /// The cache text is malformed.
    CacheCorrupt,
    /// Query resolution was attempted with no root directory available.
    NoRootConfigured,
    /// A query string does not follow the query grammar.
    ParseError,
}

impl Error {
    /// A short human-readable description of the failure.
    pub fn message(&self) -> (r: &'static str)
        ensures
            self is ConfigError ==> r@ == "invalid exclude pattern in configuration"@,
            self is CacheCorrupt ==> r@ == "the cache file is malformed"@,
            self is NoRootConfigured ==> r@ == "no root directory is configured"@,
            self is ParseError ==> r@ == "the query string is malformed"@,
    {
        match self {
            Error::ConfigError => "invalid exclude pattern in configuration",
            Error::CacheCorrupt => "the cache file is malformed",
            Error::NoRootConfigured => "no root directory is configured",
            Error::ParseError => "the query string is malformed",
        }
    }
}

} // verus!
