//! The in-memory blob lookup: the mapping from blob id to its containing
//! pack, offset and length, assembled from the streamed index files by
//! the consistency checker and consumed by the snapshot/tree graph check
//! and by the virtual file access layer.

use vstd::prelude::*;

use crate::model::{BlobKind, Id};

verus! {

/// One entry of the lookup: where a blob of a given kind lives.
#[derive(Clone, Copy, Debug, PartialEq, Eq, Structural)]
pub struct IndexEntry {
    pub id: Id,
    pub kind: BlobKind,
    pub pack: Id,
    pub offset: u32,
    pub length: u32,
}

pub open spec fn entry_matches(e: IndexEntry, id: Id, kind: BlobKind) -> bool {
    e.id == id && e.kind == kind
}

/// The first entry at position `i` or later that records blob `id` with
/// kind `kind`.
pub open spec fn find_entry_from(s: Seq<IndexEntry>, i: int, id: Id, kind: BlobKind) -> Option<
    IndexEntry,
>
    decreases s.len() - i,
{
    if i < 0 || i >= s.len() {
        None
    } else if entry_matches(s[i], id, kind) {
        Some(s[i])
    } else {
        find_entry_from(s, i + 1, id, kind)
    }
}

/// The blob lookup. Entries appear in the order the index files listed
/// them; a lookup returns the first match.
#[derive(Clone, Debug)]
pub struct BlobIndex {
    pub entries: Vec<IndexEntry>,
}

impl BlobIndex {
    pub open spec fn spec_find(self, id: Id, kind: BlobKind) -> Option<IndexEntry> {
        find_entry_from(self.entries@, 0, id, kind)
    }

    pub open spec fn spec_has(self, id: Id, kind: BlobKind) -> bool {
        self.spec_find(id, kind) is Some
    }

    pub fn new() -> (r: BlobIndex)
        ensures
            r.entries@ =~= Seq::<IndexEntry>::empty(),
    {
        BlobIndex { entries: Vec::new() }
    }

    /// The first index entry for blob `id` with the given kind.
    pub fn lookup(&self, id: &Id, kind: BlobKind) -> (r: Option<IndexEntry>)
        ensures
            r == self.spec_find(*id, kind),
    {
        let mut i: usize = 0;
        while i < self.entries.len()
            invariant
                0 <= i <= self.entries@.len(),
                find_entry_from(self.entries@, 0, *id, kind) == find_entry_from(
                    self.entries@,
                    i as int,
                    *id,
                    kind,
                ),
            decreases self.entries@.len() - i,
        {
            let e = self.entries[i];
            if e.id == *id && e.kind == kind {
                return Some(e);
            }
            i = i + 1;
        }
        None
    }

    /// Whether a data blob with this id is indexed.
    pub fn has_data(&self, id: &Id) -> (r: bool)
        ensures
            r == self.spec_has(*id, BlobKind::Data),
    {
        self.lookup(id, BlobKind::Data).is_some()
    }

    /// The recorded length of the indexed data blob `id`, if any.
    pub fn data_length(&self, id: &Id) -> (r: Option<u32>)
        ensures
            match self.spec_find(*id, BlobKind::Data) {
                Some(e) => r == Some(e.length),
                None => r is None,
            },
    {
        match self.lookup(id, BlobKind::Data) {
            Some(e) => Some(e.length),
            None => None,
        }
    }
}

} // verus!
