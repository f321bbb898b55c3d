//! In-memory snapshot cache and update-resolution engine for a package
//! update lookup service.
//!
//! The crate builds an integer-keyed, immutable cache from a persisted
//! key-value snapshot and answers "what newer package builds are available,
//! and from which errata/repositories" for a set of installed packages,
//! optionally scoped by repository, release version and base architecture.

pub mod apis;
pub mod cache;
pub mod codec;
pub mod nevra;
pub mod strutil;
pub mod tables;

use vstd::prelude::*;

verus! {

/// Errors the library reports to its callers.
#[derive(Debug, Clone, Copy, PartialEq, Eq, Structural)]
pub enum CoreError {
    /// A requested package names an architecture unknown to the cache.
    ArchNotFound,
}

impl CoreError {
    /// A human-readable rendering of the error.
    pub fn message(&self) -> (r: &'static str)
        ensures
            r@ == "Arch id not found"@,
    {
        "Arch id not found"
    }
}

} // verus!
