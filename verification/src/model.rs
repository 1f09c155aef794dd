//! The entity model shared by the consistency checker and the virtual
//! file access layer: content hashes, blobs, packs, index files, nodes,
//! trees and snapshots, plus the error taxonomy.

use vstd::prelude::*;

verus! {

/// A fixed-width 256-bit content hash, stored as four 64-bit words with
/// the most significant word first. Equality is bit-wise. The all-zero
/// value is a sentinel meaning "absent reference", distinguishable from
/// any valid hash.
#[derive(Clone, Copy, Debug, PartialEq, Eq, Structural, Hash)]
pub struct Id {
    pub w0: u64,
    pub w1: u64,
    pub w2: u64,
    pub w3: u64,
}

impl Id {
    /// The null id: the explicit "absent" sentinel.
    pub open spec fn spec_is_null(self) -> bool {
        self.w0 == 0 && self.w1 == 0 && self.w2 == 0 && self.w3 == 0
    }

    pub fn null() -> (r: Id)
        ensures
            r.spec_is_null(),
    {
        Id { w0: 0, w1: 0, w2: 0, w3: 0 }
    }

    pub fn is_null(&self) -> (r: bool)
        ensures
            r == self.spec_is_null(),
    {
        self.w0 == 0 && self.w1 == 0 && self.w2 == 0 && self.w3 == 0
    }
}

/// The two kinds of blob a pack may carry.
#[derive(Clone, Copy, Debug, PartialEq, Eq, Structural, Hash)]
pub enum BlobKind {
    Tree,
    Data,
}

/// The file categories a repository stores; the cache mirrors a subset
/// of them.
#[derive(Clone, Copy, Debug, PartialEq, Eq, Structural, Hash)]
pub enum FileType {
    Snapshot,
    Index,
    Pack,
}

/// Recoverable and fatal conditions returned by the library.
#[derive(Clone, Copy, Debug, PartialEq, Eq, Structural, Hash)]
pub enum Error {
    /// A path component, handle or extended attribute is absent.
    NotFound,
    /// The operation is not supported for this node type.
    Unsupported,
    /// Corrupt input: the supplied bytes do not match the recorded
    /// layout.
    FatalIo,
}

/// One blob as recorded inside a pack descriptor of the index: a named
/// byte range of the pack.
#[derive(Clone, Copy, Debug, PartialEq, Eq, Structural)]
pub struct IndexBlob {
    pub id: Id,
    pub kind: BlobKind,
    pub offset: u32,
    pub length: u32,
}

/// A pack descriptor from the index: an immutable container bundling
/// blobs of one declared kind contiguously.
#[derive(Clone, Debug)]
pub struct IndexPack {
    pub id: Id,
    pub kind: BlobKind,
    pub blobs: Vec<IndexBlob>,
}

/// One index file: a batch of pack descriptors split into live packs
/// and packs pending removal. The full index is the union of all index
/// files.
#[derive(Clone, Debug)]
pub struct IndexFile {
    pub packs: Vec<IndexPack>,
    pub packs_to_delete: Vec<IndexPack>,
}

/// A snapshot: one point-in-time root tree.
#[derive(Clone, Copy, Debug, PartialEq, Eq, Structural)]
pub struct Snapshot {
    pub tree: Id,
}

/// The type of a filesystem node, with its type-specific payload.
#[derive(Clone, Debug)]
pub enum NodeType {
    File,
    Dir,
    Symlink { target: Vec<u8> },
    Chardev { device: u64 },
    Dev { device: u64 },
    Fifo,
    Socket,
}

/// One extended attribute: a name (a C string, no interior zero byte)
/// and a raw value.
#[derive(Clone, Debug)]
pub struct Xattr {
    pub name: Vec<u8>,
    pub value: Vec<u8>,
}

/// Stored node metadata. Absent fields are defaulted only when mapped
/// to a POSIX attribute record, in one place.
#[derive(Clone, Debug)]
pub struct Metadata {
    pub size: u64,
    pub mode: Option<u32>,
    pub uid: Option<u32>,
    pub gid: Option<u32>,
    pub atime: Option<i64>,
    pub mtime: Option<i64>,
    pub ctime: Option<i64>,
    pub links: Option<u64>,
    pub xattrs: Vec<Xattr>,
}

/// One filesystem entry. A file carries an ordered list of content blob
/// ids; a directory carries its subtree id.
#[derive(Clone, Debug)]
pub struct Node {
    pub name: Vec<u8>,
    pub node_type: NodeType,
    pub meta: Metadata,
    pub content: Vec<Id>,
    pub subtree: Option<Id>,
}

/// An ordered list of nodes, itself stored as a content-addressed tree
/// blob.
#[derive(Clone, Debug)]
pub struct Tree {
    pub nodes: Vec<Node>,
}

/// Byte-wise equality of two byte strings.
pub fn bytes_eq(a: &Vec<u8>, b: &Vec<u8>) -> (r: bool)
    ensures
        r == (a@ == b@),
{
    if a.len() != b.len() {
        return false;
    }
    let mut i: usize = 0;
    while i < a.len()
        invariant
            a@.len() == b@.len(),
            0 <= i <= a@.len(),
            forall|k: int| 0 <= k < i ==> a@[k] == b@[k],
        decreases a@.len() - i,
    {
        if a[i] != b[i] {
            return false;
        }
        i = i + 1;
    }
    proof {
        assert(a@ =~= b@);
    }
    true
}

/// An owned copy of a byte string.
pub fn copy_bytes(v: &Vec<u8>) -> (r: Vec<u8>)
    ensures
        r@ == v@,
{
    let mut r: Vec<u8> = Vec::new();
    let mut i: usize = 0;
    while i < v.len()
        invariant
            0 <= i <= v@.len(),
            r@ =~= v@.take(i as int),
        decreases v@.len() - i,
    {
        r.push(v[i]);
        i = i + 1;
    }
    proof {
        assert(v@.take(v@.len() as int) =~= v@);
    }
    r
}

} // verus!
