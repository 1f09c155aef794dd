//! The virtual file access layer: path resolution, the table of open
//! handles, chunked reconstruction of file contents and the mapping of
//! stored metadata to POSIX-style attribute records.

use vstd::prelude::*;

use crate::index::BlobIndex;
use crate::model::{copy_bytes, BlobKind, Error, Id, Node, NodeType, Tree, Xattr};

verus! {

/// The POSIX file kind of a node, mapped one-to-one from its node type.
#[derive(Clone, Copy, Debug, PartialEq, Eq, Structural)]
pub enum FileKind {
    RegularFile,
    Directory,
    Symlink,
    CharDevice,
    BlockDevice,
    NamedPipe,
    Socket,
}

pub open spec fn spec_file_kind(t: NodeType) -> FileKind {
    match t {
        NodeType::File => FileKind::RegularFile,
        NodeType::Dir => FileKind::Directory,
        NodeType::Symlink { .. } => FileKind::Symlink,
        NodeType::Chardev { .. } => FileKind::CharDevice,
        NodeType::Dev { .. } => FileKind::BlockDevice,
        NodeType::Fifo => FileKind::NamedPipe,
        NodeType::Socket => FileKind::Socket,
    }
}

/// The POSIX file kind of a node.
pub fn file_kind(node: &Node) -> (r: FileKind)
    ensures
        r == spec_file_kind(node.node_type),
{
    match &node.node_type {
        NodeType::File => FileKind::RegularFile,
        NodeType::Dir => FileKind::Directory,
        NodeType::Symlink { .. } => FileKind::Symlink,
        NodeType::Chardev { .. } => FileKind::CharDevice,
        NodeType::Dev { .. } => FileKind::BlockDevice,
        NodeType::Fifo => FileKind::NamedPipe,
        NodeType::Socket => FileKind::Socket,
    }
}


// ------------------------------------------------------------------
// POSIX attribute mapping.
// ------------------------------------------------------------------

/// The device number a node carries; zero for anything that is not a
/// device.
pub open spec fn spec_device(t: NodeType) -> int {
    match t {
        NodeType::Chardev { device } => device as int,
        NodeType::Dev { device } => device as int,
        _ => 0,
    }
}

/// A POSIX-style attribute record. Every absent stored field is
/// defaulted here and nowhere else: timestamps fall back to the access
/// layer's own start time, mode/uid/gid to zero, the link count to one.
#[derive(Clone, Copy, Debug, PartialEq, Eq, Structural)]
pub struct FileAttr {
    pub size: u64,
    pub blocks: u64,
    pub atime: i64,
    pub mtime: i64,
    pub ctime: i64,
    pub crtime: i64,
    pub kind: FileKind,
    pub perm: u16,
    pub nlink: u32,
    pub uid: u32,
    pub gid: u32,
    pub rdev: u32,
    pub flags: u32,
}

pub open spec fn or_default_i64(v: Option<i64>, dflt: i64) -> i64 {
    match v {
        Some(x) => x,
        None => dflt,
    }
}

pub open spec fn or_zero_u32(v: Option<u32>) -> u32 {
    match v {
        Some(x) => x,
        None => 0,
    }
}

/// The stored link count mapped to a 32-bit POSIX field: one when
/// absent or too large for the field.
pub open spec fn spec_nlink(links: Option<u64>) -> u32 {
    match links {
        Some(l) => if l <= u32::MAX as u64 {
            l as u32
        } else {
            1
        },
        None => 1,
    }
}

/// Map a node's stored metadata to a POSIX attribute record. `now` is
/// the access layer's start time, the fallback for absent timestamps.
/// Device numbers are 32-bit in the record, so a device node must fit.
pub fn node_attributes(node: &Node, now: i64) -> (r: FileAttr)
    requires
        spec_device(node.node_type) <= u32::MAX as int,
    ensures
        r.size == node.meta.size,
        r.blocks == 0,
        r.atime == or_default_i64(node.meta.atime, now),
        r.mtime == or_default_i64(node.meta.mtime, now),
        r.ctime == or_default_i64(node.meta.ctime, now),
        r.crtime == now,
        r.kind == spec_file_kind(node.node_type),
        r.perm as int == or_zero_u32(node.meta.mode) as int % 0x10000,
        r.nlink == spec_nlink(node.meta.links),
        r.uid == or_zero_u32(node.meta.uid),
        r.gid == or_zero_u32(node.meta.gid),
        r.rdev as int == spec_device(node.node_type),
        r.flags == 0,
{
    let mode: u32 = match node.meta.mode {
        Some(m) => m,
        None => 0,
    };
    let nlink: u32 = match node.meta.links {
        Some(l) => if l <= u32::MAX as u64 {
            l as u32
        } else {
            1
        },
        None => 1,
    };
    let rdev: u32 = match &node.node_type {
        NodeType::Chardev { device } => *device as u32,
        NodeType::Dev { device } => *device as u32,
        _ => 0,
    };
    FileAttr {
        size: node.meta.size,
        blocks: 0,
        atime: match node.meta.atime {
            Some(t) => t,
            None => now,
        },
        mtime: match node.meta.mtime {
            Some(t) => t,
            None => now,
        },
        ctime: match node.meta.ctime {
            Some(t) => t,
            None => now,
        },
        crtime: now,
        kind: file_kind(node),
        perm: (mode % 0x10000) as u16,
        nlink,
        uid: match node.meta.uid {
            Some(u) => u,
            None => 0,
        },
        gid: match node.meta.gid {
            Some(g) => g,
            None => 0,
        },
        rdev,
        flags: 0,
    }
}

/// A symlink's target, verbatim; any other node type cannot be read as
/// a link.
pub fn readlink(node: &Node) -> (r: Result<Vec<u8>, Error>)
    ensures
        match node.node_type {
            NodeType::Symlink { target } => r matches Ok(v) && v@ == target@,
            _ => r == Err::<Vec<u8>, Error>(Error::Unsupported),
        },
{
    match &node.node_type {
        NodeType::Symlink { target } => Ok(copy_bytes(target)),
        _ => Err(Error::Unsupported),
    }
}

// ------------------------------------------------------------------
// Path resolution and directory listing.
// ------------------------------------------------------------------

/// The first node at position `i` or later whose name is `name`.
pub open spec fn child_pos_from(nodes: Seq<Node>, i: int, name: Seq<u8>) -> Option<int>
    decreases nodes.len() - i,
{
    if i < 0 || i >= nodes.len() {
        None
    } else if nodes[i].name@ == name {
        Some(i)
    } else {
        child_pos_from(nodes, i + 1, name)
    }
}

/// One step of path resolution: the position of the first child of
/// `tree` named `name`, or `NotFound` if no component matches.
pub fn find_child(tree: &Tree, name: &Vec<u8>) -> (r: Result<usize, Error>)
    ensures
        match r {
            Ok(i) => i < tree.nodes@.len() && child_pos_from(tree.nodes@, 0, name@) == Some(
                i as int,
            ),
            Err(e) => e == Error::NotFound && child_pos_from(tree.nodes@, 0, name@) is None,
        },
{
    let mut i: usize = 0;
    while i < tree.nodes.len()
        invariant
            0 <= i <= tree.nodes@.len(),
            child_pos_from(tree.nodes@, 0, name@) == child_pos_from(tree.nodes@, i as int, name@),
        decreases tree.nodes@.len() - i,
    {
        if crate::model::bytes_eq(&tree.nodes[i].name, name) {
            return Ok(i);
        }
        i = i + 1;
    }
    Err(Error::NotFound)
}

/// One directory entry as the listing returns it.
#[derive(Clone, Debug)]
pub struct DirEntry {
    pub name: Vec<u8>,
    pub kind: FileKind,
}

/// The child entries of a directory's tree, in the stored order, with
/// no additional sorting.
pub fn list_dir(tree: &Tree) -> (r: Vec<DirEntry>)
    ensures
        r@.len() == tree.nodes@.len(),
        forall|i: int|
            0 <= i < r@.len() ==> (#[trigger] r@[i]).name@ == tree.nodes@[i].name@ && r@[i].kind
                == spec_file_kind(tree.nodes@[i].node_type),
{
    let mut r: Vec<DirEntry> = Vec::new();
    let mut i: usize = 0;
    while i < tree.nodes.len()
        invariant
            0 <= i <= tree.nodes@.len(),
            r@.len() == i,
            forall|k: int|
                0 <= k < i ==> (#[trigger] r@[k]).name@ == tree.nodes@[k].name@ && r@[k].kind
                    == spec_file_kind(tree.nodes@[k].node_type),
        decreases tree.nodes@.len() - i,
    {
        let node = &tree.nodes[i];
        r.push(DirEntry { name: copy_bytes(&node.name), kind: file_kind(node) });
        i = i + 1;
    }
    r
}

// ------------------------------------------------------------------
// Extended attributes.
// ------------------------------------------------------------------

/// A reply to an extended-attribute request: the total byte length when
/// the caller probed with size zero, the bytes themselves otherwise.
#[derive(Clone, Debug)]
pub enum XattrReply {
    Size(u32),
    Data(Vec<u8>),
}

/// The listing blob: every attribute name, each terminated by a zero
/// byte, concatenated in stored order.
pub open spec fn xattr_blob_from(xs: Seq<Xattr>, i: int) -> Seq<u8>
    decreases xs.len() - i,
{
    if i < 0 || i >= xs.len() {
        Seq::empty()
    } else {
        xs[i].name@ + seq![0u8] + xattr_blob_from(xs, i + 1)
    }
}

/// Attribute names are C strings: no interior zero byte.
pub open spec fn xattr_names_ok(xs: Seq<Xattr>) -> bool {
    forall|i: int| 0 <= i < xs.len() ==> !(#[trigger] xs[i]).name@.contains(0u8)
}

/// The position of the first attribute named `name`.
pub open spec fn xattr_pos_from(xs: Seq<Xattr>, i: int, name: Seq<u8>) -> Option<int>
    decreases xs.len() - i,
{
    if i < 0 || i >= xs.len() {
        None
    } else if xs[i].name@ == name {
        Some(i)
    } else {
        xattr_pos_from(xs, i + 1, name)
    }
}

/// The null-terminated-name concatenation for an attribute listing.
pub fn list_xattr_bytes(node: &Node) -> (r: Vec<u8>)
    requires
        xattr_names_ok(node.meta.xattrs@),
    ensures
        r@ == xattr_blob_from(node.meta.xattrs@, 0),
{
    let mut r: Vec<u8> = Vec::new();
    let xs = &node.meta.xattrs;
    let mut i: usize = 0;
    while i < xs.len()
        invariant
            0 <= i <= xs@.len(),
            xattr_blob_from(xs@, 0) =~= r@ + xattr_blob_from(xs@, i as int),
        decreases xs@.len() - i,
    {
        let ghost r_prev = r@;
        let name = &xs[i].name;
        let mut j: usize = 0;
        while j < name.len()
            invariant
                0 <= j <= name@.len(),
                name == &xs@[i as int].name,
                0 <= i < xs@.len(),
                r@ == r_prev + name@.take(j as int),
            decreases name@.len() - j,
        {
            r.push(name[j]);
            proof {
                assert(r_prev + name@.take(j + 1) =~= (r_prev + name@.take(j as int)).push(
                    name@[j as int],
                ));
            }
            j = j + 1;
        }
        r.push(0u8);
        proof {
            assert(name@.take(name@.len() as int) =~= name@);
            assert(r@ =~= r_prev + (xs@[i as int].name@ + seq![0u8]));
            assert(r_prev + (xs@[i as int].name@ + seq![0u8]) + xattr_blob_from(xs@, i + 1)
                =~= r_prev + (xs@[i as int].name@ + seq![0u8] + xattr_blob_from(xs@, i + 1)));
        }
        i = i + 1;
    }
    r
}

/// List the attribute names: their total byte length when `size` is
/// zero (a size probe), the bytes themselves otherwise.
pub fn list_xattrs(node: &Node, size: u32) -> (r: XattrReply)
    requires
        xattr_names_ok(node.meta.xattrs@),
        xattr_blob_from(node.meta.xattrs@, 0).len() <= u32::MAX as int,
    ensures
        size == 0 ==> (r matches XattrReply::Size(n) && n as int == xattr_blob_from(
            node.meta.xattrs@,
            0,
        ).len()),
        size != 0 ==> (r matches XattrReply::Data(v) && v@ == xattr_blob_from(
            node.meta.xattrs@,
            0,
        )),
{
    let bytes = list_xattr_bytes(node);
    if size == 0 {
        XattrReply::Size(bytes.len() as u32)
    } else {
        XattrReply::Data(bytes)
    }
}

/// Fetch one named attribute: its raw value verbatim (or the value's
/// length on a size probe), `NotFound` if no attribute has that name.
pub fn get_xattr(node: &Node, name: &Vec<u8>, size: u32) -> (r: Result<XattrReply, Error>)
    requires
        forall|i: int|
            0 <= i < node.meta.xattrs@.len() ==> (#[trigger] node.meta.xattrs@[i]).value@.len()
                <= u32::MAX as int,
    ensures
        match xattr_pos_from(node.meta.xattrs@, 0, name@) {
            None => r == Err::<XattrReply, Error>(Error::NotFound),
            Some(k) => {
                &&& size == 0 ==> (r matches Ok(XattrReply::Size(n)) && n as int
                    == node.meta.xattrs@[k].value@.len())
                &&& size != 0 ==> (r matches Ok(XattrReply::Data(v)) && v@
                    == node.meta.xattrs@[k].value@)
            },
        },
{
    let xs = &node.meta.xattrs;
    let mut i: usize = 0;
    while i < xs.len()
        invariant
            xs == &node.meta.xattrs,
            0 <= i <= xs@.len(),
            xattr_pos_from(xs@, 0, name@) == xattr_pos_from(xs@, i as int, name@),
            forall|k: int|
                0 <= k < xs@.len() ==> (#[trigger] xs@[k]).value@.len() <= u32::MAX as int,
        decreases xs@.len() - i,
    {
        if crate::model::bytes_eq(&xs[i].name, name) {
            proof {
                assert(xattr_pos_from(xs@, i as int, name@) == Some(i as int));
                assert(xs@[i as int].value@.len() <= u32::MAX as int);
            }
            if size == 0 {
                return Ok(XattrReply::Size(xs[i].value.len() as u32));
            } else {
                return Ok(XattrReply::Data(copy_bytes(&xs[i].value)));
            }
        }
        i = i + 1;
    }
    Err(Error::NotFound)
}


// ------------------------------------------------------------------
// Open files and the handle table.
// ------------------------------------------------------------------

/// One content blob of an open file: its id and its indexed length.
#[derive(Clone, Copy, Debug, PartialEq, Eq, Structural)]
pub struct BlobRef {
    pub id: Id,
    pub length: u32,
}

/// The per-blob prefix sums of an open file's lengths: blob `n` starts
/// at `blob_total(blobs, n)`.
pub open spec fn blob_total(s: Seq<BlobRef>, n: int) -> int
    decreases n,
{
    if n <= 0 {
        0
    } else {
        blob_total(s, n - 1) + s[n - 1].length
    }
}

proof fn lemma_blob_total_bound(s: Seq<BlobRef>, n: int)
    requires
        0 <= n <= s.len(),
    ensures
        0 <= blob_total(s, n) <= n * 0xffff_ffff,
    decreases n,
{
    if n > 0 {
        lemma_blob_total_bound(s, n - 1);
        assert(n * 0xffff_ffff == (n - 1) * 0xffff_ffff + 0xffff_ffff) by (nonlinear_arith);
    }
}

proof fn lemma_blob_total_mono(s: Seq<BlobRef>, a: int, b: int)
    requires
        0 <= a <= b,
    ensures
        blob_total(s, a) <= blob_total(s, b),
    decreases b - a,
{
    if a < b {
        lemma_blob_total_mono(s, a, b - 1);
    }
}

/// An open file: the immutable ordered list of its content blobs, built
/// once at `open` from the node and the blob lookup. File offsets are
/// 64-bit, so the list is bounded by the 32-bit per-blob lengths.
#[derive(Clone, Debug)]
pub struct OpenFile {
    pub blobs: Vec<BlobRef>,
}

impl OpenFile {
    pub open spec fn wf(self) -> bool {
        self.blobs@.len() <= 0xffff_ffff
    }

    /// The file's size: the sum of its blobs' lengths.
    pub open spec fn spec_size(self) -> int {
        blob_total(self.blobs@, self.blobs@.len() as int)
    }
}

fn open_file_size(f: &OpenFile) -> (r: u64)
    requires
        f.wf(),
    ensures
        r == f.spec_size(),
{
    let mut total: u64 = 0;
    let mut i: usize = 0;
    while i < f.blobs.len()
        invariant
            f.wf(),
            0 <= i <= f.blobs@.len(),
            total == blob_total(f.blobs@, i as int),
        decreases f.blobs@.len() - i,
    {
        proof {
            lemma_blob_total_bound(f.blobs@, i + 1);
            assert((i + 1) * 0xffff_ffff <= 0xffff_ffff * 0xffff_ffff) by (nonlinear_arith)
                requires
                    0 <= i + 1 <= 0xffff_ffff,
            ;
        }
        total = total + (f.blobs[i].length as u64);
        i = i + 1;
    }
    total
}

/// Whether handle `fh` is present in a handle table.
pub open spec fn spec_live(t: Seq<Option<OpenFile>>, fh: u64) -> bool {
    fh < t.len() && t[fh as int] is Some
}

/// The recorded length of the indexed data blob `id`; zero if absent
/// (`open` only uses it when presence is established).
pub open spec fn data_len_of(index: BlobIndex, id: Id) -> u32 {
    match index.spec_find(id, BlobKind::Data) {
        Some(e) => e.length,
        None => 0,
    }
}

/// The blob list an open file gets from a node's content ids.
pub open spec fn spec_blob_list(ids: Seq<Id>, index: BlobIndex) -> Seq<BlobRef> {
    ids.map_values(|id: Id| BlobRef { id, length: data_len_of(index, id) })
}

/// The end of the byte window `[offset, offset+size)` clipped to the
/// file: reads never run past end-of-file.
pub open spec fn window_end(total: int, off: int, size: int) -> int {
    if off + size <= total {
        off + size
    } else {
        total
    }
}

/// The read plan for the window `[lo, hi)` over the blobs from position
/// `i` on, which start at byte `cur`: exactly the blobs overlapping the
/// window, each with the slice of it to keep.
pub open spec fn plan_from(blobs: Seq<BlobRef>, i: int, cur: int, lo: int, hi: int) -> Seq<
    ReadChunk,
>
    decreases blobs.len() - i,
{
    if i < 0 || i >= blobs.len() || cur >= hi || lo >= hi {
        Seq::empty()
    } else {
        let b = blobs[i];
        let nxt = cur + b.length;
        if nxt <= lo || b.length == 0 {
            plan_from(blobs, i + 1, nxt, lo, hi)
        } else {
            let s = if lo > cur {
                lo - cur
            } else {
                0
            };
            let e = if hi < nxt {
                hi - cur
            } else {
                b.length as int
            };
            seq![ReadChunk {
                blob_index: i as usize,
                id: b.id,
                blob_len: b.length,
                skip: s as u32,
                take_len: (e - s) as u32,
            }] + plan_from(blobs, i + 1, nxt, lo, hi)
        }
    }
}

/// One fetch the caller performs to serve a read: blob `blob_index` of
/// the open file (its id repeated for convenience), of recorded length
/// `blob_len`, of which bytes `[skip, skip+take_len)` belong to the
/// requested window.
#[derive(Clone, Copy, Debug, PartialEq, Eq, Structural)]
pub struct ReadChunk {
    pub blob_index: usize,
    pub id: Id,
    pub blob_len: u32,
    pub skip: u32,
    pub take_len: u32,
}

/// The smallest table slot not currently holding an open file (the
/// table's length if every slot is taken).
fn first_free_slot(handles: &Vec<Option<OpenFile>>) -> (k: usize)
    ensures
        k <= handles@.len(),
        forall|j: int| 0 <= j < k ==> (#[trigger] handles@[j]) is Some,
        k < handles@.len() ==> (handles@[k as int] is None),
{
    let mut k: usize = 0;
    while k < handles.len()
        invariant
            0 <= k <= handles@.len(),
            forall|j: int| 0 <= j < k ==> (#[trigger] handles@[j]) is Some,
        decreases handles@.len() - k,
    {
        if handles[k].is_none() {
            return k;
        }
        k = k + 1;
    }
    k
}

/// The virtual file access layer: the root tree, the start time used
/// for defaulted timestamps, the blob lookup, and the table of open
/// handles. A handle identifier is the smallest key unused at `open`.
#[derive(Debug)]
pub struct Vfs {
    pub root: Id,
    pub now: i64,
    pub index: BlobIndex,
    pub handles: Vec<Option<OpenFile>>,
}

impl Vfs {
    /// The handle table: entry `fh` holds the file opened under handle
    /// `fh`, if any.
    pub open spec fn table(self) -> Seq<Option<OpenFile>> {
        self.handles@
    }

    pub open spec fn wf(self) -> bool {
        forall|k: int|
            0 <= k < self.table().len() ==> (match #[trigger] self.table()[k] {
                Some(f) => f.wf(),
                None => true,
            })
    }

    pub open spec fn handle_live(self, fh: u64) -> bool {
        spec_live(self.table(), fh)
    }

    /// Build the layer over a directory node (normally a snapshot's
    /// root): the node must carry a subtree reference.
    pub fn new(root_node: &Node, now: i64, index: BlobIndex) -> (r: Result<Vfs, Error>)
        ensures
            match r {
                Ok(v) => root_node.subtree matches Some(t) && v.root == t && v.now == now && v.index
                    == index && v.table() =~= Seq::<Option<OpenFile>>::empty() && v.wf(),
                Err(e) => e == Error::Unsupported && root_node.subtree is None,
            },
    {
        match &root_node.subtree {
            Some(t) => Ok(Vfs { root: *t, now, index, handles: Vec::new() }),
            None => Err(Error::Unsupported),
        }
    }

    /// Open a regular file: build its blob list from the index and
    /// store it under the smallest unused handle identifier. Any other
    /// node type is `Unsupported`; a content id absent from the index
    /// is `NotFound`. File offsets are 64-bit, so the content list is
    /// bounded by the 32-bit blob lengths.
    pub fn open(&mut self, node: &Node) -> (r: Result<u64, Error>)
        requires
            old(self).wf(),
            node.content@.len() <= 0xffff_ffff,
        ensures
            final(self).wf(),
            final(self).root == old(self).root && final(self).now == old(self).now && final(self).index == old(self).index,
            match r {
                Err(Error::Unsupported) => !(node.node_type is File) && final(self).table() == old(
                    self,
                ).table(),
                Err(Error::NotFound) => node.node_type is File && final(self).table() == old(
                    self,
                ).table() && (exists|j: int|
                    0 <= j < node.content@.len() && !old(self).index.spec_has(
                        #[trigger] node.content@[j],
                        BlobKind::Data,
                    )),
                Err(Error::FatalIo) => false,
                Ok(fh) => {
                    &&& node.node_type is File
                    &&& forall|j: int|
                        0 <= j < node.content@.len() ==> old(self).index.spec_has(
                            #[trigger] node.content@[j],
                            BlobKind::Data,
                        )
                    &&& fh as int <= old(self).table().len()
                    &&& forall|k: int| 0 <= k < fh ==> (#[trigger] old(self).table()[k]) is Some
                    &&& (fh as int) < old(self).table().len() ==> (old(self).table()[fh as int]
                        is None)
                    &&& final(self).table().len() as int == (if (fh as int) < old(
                        self,
                    ).table().len() {
                        old(self).table().len() as int
                    } else {
                        old(self).table().len() as int + 1
                    })
                    &&& final(self).handle_live(fh)
                    &&& (final(self).table()[fh as int] matches Some(f) && f.blobs@
                        == spec_blob_list(node.content@, old(self).index))
                    &&& forall|k: int|
                        0 <= k < old(self).table().len() && k != fh ==> #[trigger] final(self).table()[k] == old(self).table()[k]
                },
            },
    {
        match &node.node_type {
            NodeType::File => {},
            _ => {
                return Err(Error::Unsupported);
            },
        }
        let mut blobs: Vec<BlobRef> = Vec::new();
        let mut j: usize = 0;
        while j < node.content.len()
            invariant
                *self == *old(self),
                old(self).wf(),
                0 <= j <= node.content@.len(),
                blobs@ == spec_blob_list(node.content@.take(j as int), old(self).index),
                forall|k: int|
                    0 <= k < j ==> old(self).index.spec_has(
                        #[trigger] node.content@[k],
                        BlobKind::Data,
                    ),
                node.node_type is File,
            decreases node.content@.len() - j,
        {
            let cid = node.content[j];
            match self.index.data_length(&cid) {
                None => {
                    return Err(Error::NotFound);
                },
                Some(len) => {
                    blobs.push(BlobRef { id: cid, length: len });
                    proof {
                        let f = |id: Id| BlobRef { id, length: data_len_of(old(self).index, id) };
                        assert(node.content@.take(j + 1).map_values(f) =~= node.content@.take(
                            j as int,
                        ).map_values(f).push(f(node.content@[j as int])));
                    }
                },
            }
            j = j + 1;
        }
        proof {
            assert(node.content@.take(node.content@.len() as int) =~= node.content@);
        }
        let of = OpenFile { blobs };
        proof {
            assert(of.wf());
        }
        let k = first_free_slot(&self.handles);
        let ghost t_old = self.handles@;
        if k < self.handles.len() {
            self.handles[k] = Some(of);
        } else {
            self.handles.push(Some(of));
        }
        proof {
            assert forall|k2: int|
                0 <= k2 < self.handles@.len() implies (match #[trigger] self.handles@[k2] {
                Some(f2) => f2.wf(),
                None => true,
            }) by {
                if k2 != k {
                    assert(self.handles@[k2] == t_old[k2]);
                }
            }
        }
        Ok(k as u64)
    }

    /// Remove the handle from the table. A handle already released (or
    /// never opened) is `NotFound`.
    pub fn release(&mut self, fh: u64) -> (r: Result<(), Error>)
        requires
            old(self).wf(),
        ensures
            final(self).wf(),
            final(self).root == old(self).root && final(self).now == old(self).now && final(self).index == old(self).index,
            old(self).handle_live(fh) ==> r == Ok::<(), Error>(()) && final(self).table() == old(
                self,
            ).table().update(fh as int, None),
            !old(self).handle_live(fh) ==> r == Err::<(), Error>(Error::NotFound) && final(self).table() == old(self).table(),
    {
        if fh >= self.handles.len() as u64 {
            return Err(Error::NotFound);
        }
        let idx = fh as usize;
        if self.handles[idx].is_none() {
            return Err(Error::NotFound);
        }
        self.handles[idx] = None;
        Ok(())
    }

    /// Plan a read of `size` bytes at `offset`: the exact list of blob
    /// slices, in order, that concatenate to the requested window. An
    /// offset at or past end-of-file yields an empty plan, never an
    /// error; an unknown handle is `NotFound`.
    pub fn read_plan(&self, fh: u64, offset: u64, size: u32) -> (r: Result<Vec<ReadChunk>, Error>)
        requires
            self.wf(),
        ensures
            match r {
                Err(e) => e == Error::NotFound && !self.handle_live(fh),
                Ok(plan) => self.handle_live(fh) && (self.table()[fh as int] matches Some(f)
                    && plan@ == plan_from(
                    f.blobs@,
                    0,
                    0,
                    offset as int,
                    window_end(f.spec_size(), offset as int, size as int),
                )),
            },
    {
        if fh >= self.handles.len() as u64 {
            return Err(Error::NotFound);
        }
        let idx = fh as usize;
        let f = match &self.handles[idx] {
            None => {
                return Err(Error::NotFound);
            },
            Some(f) => f,
        };
        proof {
            assert(f.wf());
        }
        let total = open_file_size(f);
        let lo = offset;
        let hi: u64 = if offset >= total {
            total
        } else if (size as u64) <= total - offset {
            offset + (size as u64)
        } else {
            total
        };
        let mut plan: Vec<ReadChunk> = Vec::new();
        proof {
            assert(plan@ + plan_from(f.blobs@, 0, 0, lo as int, hi as int) =~= plan_from(
                f.blobs@,
                0,
                0,
                lo as int,
                hi as int,
            ));
        }
        let mut cur: u64 = 0;
        let mut i: usize = 0;
        while i < f.blobs.len()
            invariant
                f.wf(),
                0 <= i <= f.blobs@.len(),
                cur == blob_total(f.blobs@, i as int),
                total == f.spec_size(),
                hi <= total,
                lo == offset,
                plan_from(f.blobs@, 0, 0, lo as int, hi as int) == plan@ + plan_from(
                    f.blobs@,
                    i as int,
                    cur as int,
                    lo as int,
                    hi as int,
                ),
            decreases f.blobs@.len() - i,
        {
            proof {
                lemma_blob_total_bound(f.blobs@, i as int);
                lemma_blob_total_mono(f.blobs@, i + 1, f.blobs@.len() as int);
            }
            let b = f.blobs[i];
            let nxt = cur + (b.length as u64);
            let ghost plan_prev = plan@;
            if hi <= lo || cur >= hi || nxt <= lo || b.length == 0 {
                // no overlap: the spec plan skips this blob too
            } else {
                let skip64: u64 = if lo > cur {
                    lo - cur
                } else {
                    0
                };
                let end64: u64 = if hi < nxt {
                    hi - cur
                } else {
                    b.length as u64
                };
                proof {
                    assert(skip64 < end64);
                    assert(end64 <= b.length as u64);
                }
                plan.push(
                    ReadChunk {
                        blob_index: i,
                        id: b.id,
                        blob_len: b.length,
                        skip: skip64 as u32,
                        take_len: (end64 - skip64) as u32,
                    },
                );
                proof {
                    let cs = plan_from(f.blobs@, i as int, cur as int, lo as int, hi as int);
                    assert(plan@ =~= plan_prev + seq![cs[0]]);
                    assert(plan_prev + seq![cs[0]] + plan_from(
                        f.blobs@,
                        i + 1,
                        nxt as int,
                        lo as int,
                        hi as int,
                    ) =~= plan_prev + (seq![cs[0]] + plan_from(
                        f.blobs@,
                        i + 1,
                        nxt as int,
                        lo as int,
                        hi as int,
                    )));
                }
            }
            cur = nxt;
            i = i + 1;
        }
        Ok(plan)
    }
}

/// Releasing a handle leaves the table with nothing under that
/// identifier, so by the contracts of `release` and `read_plan` any
/// later `read_plan` or `release` of it reports `NotFound`.
pub proof fn lemma_released_handle_dead(t: Seq<Option<OpenFile>>, fh: u64)
    requires
        fh < t.len(),
    ensures
        !spec_live(t.update(fh as int, None), fh),
{
}


// ------------------------------------------------------------------
// Assembling the fetched blob slices, and the read-exactness law.
// ------------------------------------------------------------------

/// The slice of one fetched blob that a chunk keeps.
pub open spec fn chunk_slice(c: ReadChunk, data: Seq<u8>) -> Seq<u8> {
    data.subrange(c.skip as int, c.skip + c.take_len)
}

/// Whether the fetched blob contents fit the plan: one byte string per
/// chunk, of exactly the recorded length, and each slice in range.
pub open spec fn chunks_ok(plan: Seq<ReadChunk>, fetched: Seq<Seq<u8>>) -> bool {
    &&& fetched.len() == plan.len()
    &&& forall|k: int|
        0 <= k < plan.len() ==> (#[trigger] fetched[k]).len() == plan[k].blob_len && plan[k].skip
            + plan[k].take_len <= plan[k].blob_len
}

/// The concatenation of the chunks' slices over the fetched contents
/// (`fetched[k]` is the full content of the blob chunk `k` names).
pub open spec fn chunk_bytes(plan: Seq<ReadChunk>, fetched: Seq<Seq<u8>>) -> Seq<u8>
    decreases plan.len(),
{
    if plan.len() == 0 {
        Seq::empty()
    } else {
        chunk_slice(plan[0], fetched[0]) + chunk_bytes(plan.drop_first(), fetched.drop_first())
    }
}

pub open spec fn views_of(s: Seq<Vec<u8>>) -> Seq<Seq<u8>> {
    s.map_values(|v: Vec<u8>| v@)
}

/// Concatenate and trim the fetched blob contents to the planned
/// window: `fetched[k]` must be the full decrypted content of the blob
/// chunk `k` names. Contents that contradict the recorded lengths are
/// corrupt input.
pub fn assemble(plan: &Vec<ReadChunk>, fetched: &Vec<Vec<u8>>) -> (r: Result<Vec<u8>, Error>)
    ensures
        match r {
            Ok(bytes) => chunks_ok(plan@, views_of(fetched@)) && bytes@ == chunk_bytes(
                plan@,
                views_of(fetched@),
            ),
            Err(e) => e == Error::FatalIo && !chunks_ok(plan@, views_of(fetched@)),
        },
{
    if fetched.len() != plan.len() {
        return Err(Error::FatalIo);
    }
    let mut k: usize = 0;
    while k < plan.len()
        invariant
            fetched@.len() == plan@.len(),
            0 <= k <= plan@.len(),
            forall|j: int|
                0 <= j < k ==> (#[trigger] views_of(fetched@)[j]).len() == plan@[j].blob_len
                    && plan@[j].skip + plan@[j].take_len <= plan@[j].blob_len,
        decreases plan@.len() - k,
    {
        let c = plan[k];
        if fetched[k].len() != (c.blob_len as usize) || (c.skip as u64) + (c.take_len as u64) > (
        c.blob_len as u64) {
            proof {
                assert(views_of(fetched@)[k as int] == fetched@[k as int]@);
            }
            return Err(Error::FatalIo);
        }
        proof {
            assert(views_of(fetched@)[k as int] == fetched@[k as int]@);
        }
        k = k + 1;
    }
    let mut bytes: Vec<u8> = Vec::new();
    let ghost full = views_of(fetched@);
    proof {
        assert(plan@.skip(0) =~= plan@);
        assert(full.skip(0) =~= full);
        assert(chunk_bytes(plan@, full) =~= Seq::<u8>::empty() + chunk_bytes(plan@, full));
    }
    let mut k2: usize = 0;
    while k2 < plan.len()
        invariant
            chunks_ok(plan@, full),
            full == views_of(fetched@),
            fetched@.len() == plan@.len(),
            0 <= k2 <= plan@.len(),
            chunk_bytes(plan@, full) == bytes@ + chunk_bytes(
                plan@.skip(k2 as int),
                full.skip(k2 as int),
            ),
        decreases plan@.len() - k2,
    {
        let c = plan[k2];
        let data = &fetched[k2];
        proof {
            assert(full[k2 as int] == fetched@[k2 as int]@);
            assert(plan@.skip(k2 as int)[0] == plan@[k2 as int]);
            assert(full.skip(k2 as int)[0] == full[k2 as int]);
            assert(plan@.skip(k2 as int).drop_first() =~= plan@.skip(k2 + 1));
            assert(full.skip(k2 as int).drop_first() =~= full.skip(k2 + 1));
        }
        let ghost bytes_prev = bytes@;
        let mut j: usize = 0;
        while j < (c.take_len as usize)
            invariant
                0 <= j <= c.take_len,
                data == &fetched@[k2 as int],
                0 <= k2 < plan@.len(),
                fetched@.len() == plan@.len(),
                c == plan@[k2 as int],
                data@.len() == c.blob_len,
                c.skip + c.take_len <= c.blob_len,
                bytes@ == bytes_prev + data@.subrange(c.skip as int, c.skip + j),
            decreases c.take_len - j,
        {
            bytes.push(data[(c.skip as usize) + j]);
            proof {
                assert(data@.subrange(c.skip as int, c.skip + j + 1) =~= data@.subrange(
                    c.skip as int,
                    c.skip + j,
                ).push(data@[c.skip + j]));
            }
            j = j + 1;
        }
        proof {
            assert(bytes@ =~= bytes_prev + chunk_slice(plan@[k2 as int], full[k2 as int]));
            assert(bytes_prev + chunk_slice(plan@[k2 as int], full[k2 as int]) + chunk_bytes(
                plan@.skip(k2 + 1),
                full.skip(k2 + 1),
            ) =~= bytes_prev + (chunk_slice(plan@[k2 as int], full[k2 as int]) + chunk_bytes(
                plan@.skip(k2 + 1),
                full.skip(k2 + 1),
            )));
        }
        k2 = k2 + 1;
    }
    proof {
        assert(plan@.skip(plan@.len() as int) =~= Seq::<ReadChunk>::empty());
        assert(full.skip(plan@.len() as int) =~= Seq::<Seq<u8>>::empty());
        assert(bytes@ + chunk_bytes(Seq::empty(), Seq::empty()) =~= bytes@);
    }
    Ok(bytes)
}

// ------------------------------------------------------------------
// The read-exactness law.
// ------------------------------------------------------------------

/// The full file content: the concatenation of the blobs' contents from
/// blob `i` on.
pub open spec fn concat_all(datas: Seq<Seq<u8>>, i: int) -> Seq<u8>
    decreases datas.len() - i,
{
    if i < 0 || i >= datas.len() {
        Seq::empty()
    } else {
        datas[i] + concat_all(datas, i + 1)
    }
}

/// One content byte string per blob, of exactly the indexed length.
pub open spec fn datas_match(blobs: Seq<BlobRef>, datas: Seq<Seq<u8>>) -> bool {
    &&& datas.len() == blobs.len()
    &&& forall|k: int|
        0 <= k < blobs.len() ==> (#[trigger] datas[k]).len() == blobs[k].length
}

/// The chunks' slices taken directly out of the per-blob contents.
pub open spec fn sliced_bytes(plan: Seq<ReadChunk>, datas: Seq<Seq<u8>>) -> Seq<u8>
    decreases plan.len(),
{
    if plan.len() == 0 {
        Seq::empty()
    } else {
        chunk_slice(plan[0], datas[plan[0].blob_index as int]) + sliced_bytes(
            plan.drop_first(),
            datas,
        )
    }
}

/// Fetching each planned blob and assembling gives the same bytes as
/// slicing directly out of the per-blob contents.
pub proof fn lemma_gathered_slices(plan: Seq<ReadChunk>, fetched: Seq<Seq<u8>>, datas: Seq<Seq<u8>>)
    requires
        fetched.len() == plan.len(),
        forall|j: int|
            0 <= j < plan.len() ==> #[trigger] fetched[j] == datas[plan[j].blob_index as int],
    ensures
        chunk_bytes(plan, fetched) == sliced_bytes(plan, datas),
    decreases plan.len(),
{
    if plan.len() > 0 {
        lemma_gathered_slices(plan.drop_first(), fetched.drop_first(), datas);
    }
}

proof fn lemma_concat_len(blobs: Seq<BlobRef>, datas: Seq<Seq<u8>>, i: int)
    requires
        datas_match(blobs, datas),
        0 <= i <= blobs.len(),
    ensures
        concat_all(datas, i).len() == blob_total(blobs, blobs.len() as int) - blob_total(blobs, i),
    decreases blobs.len() - i,
{
    if i < blobs.len() {
        lemma_concat_len(blobs, datas, i + 1);
    }
}

proof fn lemma_plan_window(blobs: Seq<BlobRef>, datas: Seq<Seq<u8>>, i: int, lo: int, hi: int)
    requires
        datas_match(blobs, datas),
        blobs.len() <= usize::MAX,
        0 <= i <= blobs.len(),
        0 <= lo,
        hi <= blob_total(blobs, blobs.len() as int),
    ensures
        ({
            let cur = blob_total(blobs, i);
            if lo >= hi || cur >= hi {
                sliced_bytes(plan_from(blobs, i, cur, lo, hi), datas) == Seq::<u8>::empty()
            } else {
                sliced_bytes(plan_from(blobs, i, cur, lo, hi), datas) == concat_all(
                    datas,
                    i,
                ).subrange((if lo > cur { lo } else { cur }) - cur, hi - cur)
            }
        }),
    decreases blobs.len() - i,
{
    let cur = blob_total(blobs, i);
    let total = blob_total(blobs, blobs.len() as int);
    lemma_blob_total_mono(blobs, i, blobs.len() as int);
    lemma_concat_len(blobs, datas, i);
    if lo >= hi || cur >= hi {
        // the plan is empty by definition
    } else {
        // cur < hi <= total, so this blob exists
        assert(i < blobs.len());
        let b = blobs[i];
        let nxt = cur + b.length;
        assert(nxt == blob_total(blobs, i + 1));
        lemma_plan_window(blobs, datas, i + 1, lo, hi);
        lemma_concat_len(blobs, datas, i + 1);
        let di = datas[i];
        let rest = concat_all(datas, i + 1);
        assert(concat_all(datas, i) == di + rest);
        assert(di.len() == b.length);
        let a = if lo > cur {
            lo
        } else {
            cur
        };
        if nxt <= lo || b.length == 0 {
            // this blob is skipped; the window lies wholly in the rest
            assert(nxt < hi);
            let a2 = if lo > nxt {
                lo
            } else {
                nxt
            };
            assert(sliced_bytes(plan_from(blobs, i + 1, nxt, lo, hi), datas) == rest.subrange(
                a2 - nxt,
                hi - nxt,
            ));
            assert((di + rest).subrange(a - cur, hi - cur) =~= rest.subrange(a2 - nxt, hi - nxt));
        } else {
            let s = if lo > cur {
                lo - cur
            } else {
                0
            };
            let e = if hi < nxt {
                hi - cur
            } else {
                b.length as int
            };
            let chunk = ReadChunk {
                blob_index: i as usize,
                id: b.id,
                blob_len: b.length,
                skip: s as u32,
                take_len: (e - s) as u32,
            };
            let tailplan = plan_from(blobs, i + 1, nxt, lo, hi);
            assert(plan_from(blobs, i, cur, lo, hi) == seq![chunk] + tailplan);
            assert((seq![chunk] + tailplan)[0] == chunk);
            assert((seq![chunk] + tailplan).drop_first() =~= tailplan);
            assert(chunk_slice(chunk, di) == di.subrange(s, e));
            if nxt >= hi {
                assert(tailplan =~= Seq::<ReadChunk>::empty());
                assert(e == hi - cur);
                assert(sliced_bytes(plan_from(blobs, i, cur, lo, hi), datas) =~= di.subrange(s, e));
                assert((di + rest).subrange(a - cur, hi - cur) =~= di.subrange(s, e));
            } else {
                // the window continues into the following blobs
                assert(e == b.length as int);
                assert(sliced_bytes(tailplan, datas) == rest.subrange(0, hi - nxt));
                assert(sliced_bytes(plan_from(blobs, i, cur, lo, hi), datas) =~= di.subrange(s, e)
                    + rest.subrange(0, hi - nxt));
                assert((di + rest).subrange(a - cur, hi - cur) =~= di.subrange(s, e)
                    + rest.subrange(0, hi - nxt));
            }
        }
    }
}

/// The read-exactness law: the planned read of the window
/// `[offset, offset + size)`, assembled from the blobs' contents,
/// equals the file's byte string sliced to that window clipped to
/// end-of-file; an offset at or past end-of-file reads nothing.
pub proof fn lemma_read_window(blobs: Seq<BlobRef>, datas: Seq<Seq<u8>>, off: int, size: int)
    requires
        datas_match(blobs, datas),
        blobs.len() <= usize::MAX,
        0 <= off,
        0 <= size,
    ensures
        ({
            let total = blob_total(blobs, blobs.len() as int);
            let hi = window_end(total, off, size);
            &&& off >= total ==> sliced_bytes(plan_from(blobs, 0, 0, off, hi), datas) == Seq::<
                u8,
            >::empty()
            &&& off <= total ==> sliced_bytes(plan_from(blobs, 0, 0, off, hi), datas) == concat_all(
                datas,
                0,
            ).subrange(off, hi)
        }),
{
    let total = blob_total(blobs, blobs.len() as int);
    let hi = window_end(total, off, size);
    lemma_blob_total_mono(blobs, 0, blobs.len() as int);
    lemma_plan_window(blobs, datas, 0, off, hi);
    lemma_concat_len(blobs, datas, 0);
    if off < total && off < hi {
        assert(sliced_bytes(plan_from(blobs, 0, 0, off, hi), datas) == concat_all(
            datas,
            0,
        ).subrange(off, hi));
    }
    if off <= total && off >= hi {
        assert(concat_all(datas, 0).subrange(off, hi) =~= Seq::<u8>::empty());
    }
}

} // verus!
