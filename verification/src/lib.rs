//! A file-tree catalogue with two-tier content fingerprints.
//!
//! Files are indexed into a single-file embedded store under a cheap
//! 64-bit fingerprint; a strong cryptographic digest is computed only
//! when two entries collide on the cheap one (lazy promotion), or for
//! every entry in strong-only mode. A read-only scan groups files by
//! strong fingerprint into duplicate groups, and a planner reduces the
//! groups to directory-signature prune rules.
//!
//! The store's schema is version-gated and its mode flags are locked
//! at creation; later sessions must match them exactly.

pub mod db;
pub mod dup_prune;
pub mod filehash;
pub mod hasher;
pub mod hexnum;
pub mod ops;
pub mod strutil;
