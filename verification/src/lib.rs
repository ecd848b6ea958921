//! Maintenance of a compilation database: a list of recorded compiler
//! invocations that tooling (linters, indexers, language servers) consults.
//!
//! The heart of the crate is the reconciliation pipeline in [`engine`]:
//! it expires records older than a retention window, synthesizes header
//! records from source-file records by extension substitution, discards
//! synthesized records whose target already has an explicit entry, and
//! finally drops every record whose target no longer exists on disk.
//! [`laws`] proves the pipeline idempotent and its output recent, existing
//! on disk, and free of duplicate targets, over the filesystem snapshot
//! model of [`engine`].

pub mod engine;
pub mod laws;
pub mod record;
