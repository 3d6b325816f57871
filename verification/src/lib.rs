//! Verified core of a game-mod profile importer.
//!
//! A profile is a named bundle of installed mods plus configuration files.
//! This library holds the logic of importing one from an archive, a remote
//! share-code or a local reference: decoding the share-code payload, parsing
//! the legacy manifest, resolving mod references against a package index,
//! planning the replacement of a colliding profile, and merging the
//! configuration tree into the new profile's layout. The surrounding I/O
//! (file reads, the HTTP fetch, archive extraction) lives outside it and
//! hands it plain values.

use vstd::prelude::*;

pub mod fstree;
pub mod import;
pub mod manifest;
pub mod paths;
pub mod profile;

verus! {

/// What can go wrong along the import pipeline. A remote fetch answering
/// "not found" is its own case, apart from other transport failures, so a
/// caller can tell an expired share-code from a flaky network.
#[derive(Debug, Clone, Copy, PartialEq, Eq, Structural)]
pub enum ImportError {
    /// An open, read, write, copy or remove failed.
    Io,
    /// A transport-level failure, carrying the HTTP status that was seen.
    Network(u16),
    /// The share-code is expired or invalid: the remote answered "not found".
    RemoteNotFound,
    /// Malformed input: manifest, share-code payload marker, or its encoding.
    Parse,
}

/// Selects the encoding used when a structured value is written to disk:
/// human-readable and indented, or compact.
#[derive(Debug, Clone, Copy, PartialEq, Eq, Structural)]
pub enum JsonStyle {
    Pretty,
    Compact,
}

impl JsonStyle {
    /// True exactly for the human-readable, indented encoding.
    pub fn is_pretty(self) -> (r: bool)
        ensures
            r == (self is Pretty),
    {
        match self {
            JsonStyle::Pretty => true,
            JsonStyle::Compact => false,
        }
    }
}

} // verus!
