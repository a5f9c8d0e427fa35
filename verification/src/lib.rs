//! Resolution and distribution pipeline for prebuilt PostgreSQL archives.
//!
//! The crate models partially-specified versions, selects the best release
//! from a catalog listing, locates the platform archive and its checksum
//! companion among a release's assets, extracts the digest token from a
//! checksum body, plans the extraction of a gzip-compressed tar archive,
//! and dispatches catalog URLs through predicate registries.

pub mod error;
pub mod extensions;
pub mod extract;
pub mod integrity;
pub mod registry;
pub mod resolve;
pub mod strutil;
pub mod version;
