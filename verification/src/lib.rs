//! Integrity checking and read-only file access for a deduplicating,
//! content-addressed backup repository.
//!
//! Data is stored as content-hashed blobs bundled into immutable pack
//! files, indexed by a separate index structure, and organized into
//! trees and snapshots forming a versioned filesystem history.
//!
//! The crate provides:
//! - an entity model ([`model`]): ids, blobs, packs, index files, nodes,
//!   trees and snapshots;
//! - a blob lookup built from streamed index files ([`index`]);
//! - a consistency checker ([`check`]) that cross-validates the local
//!   cache mirror, the index and the backend's pack listing, and walks
//!   the snapshot/tree graph exactly once per tree;
//! - a virtual file access layer ([`vfs`]) that resolves paths, keeps a
//!   table of open handles and reconstructs arbitrary byte ranges of a
//!   stored file from its ordered list of content blobs.
//!
//! All storage access is left to the caller: every function here maps
//! plain values to plain values, so the traversal and read loops hand
//! out the ids to fetch and take the fetched contents back.

pub mod check;
pub mod index;
pub mod model;
pub mod vfs;
