//! The consistency checker: pack/offset/kind validation, pack/index
//! reconciliation, the cache mirror comparison and the snapshot/tree
//! graph walk. Inconsistencies are reported as structured diagnostics
//! and never abort a check; fatal storage failures stay with the caller,
//! who performs all reads.

use vstd::prelude::*;
use vstd::relations::{sorted_by, total_ordering};
use vstd::seq_lib::lemma_sorted_unique;

use crate::index::{BlobIndex, IndexEntry};
use crate::model::{BlobKind, FileType, Id, IndexBlob, IndexFile, IndexPack, Node, NodeType, Snapshot, Tree};

verus! {

/// One detected inconsistency. Diagnostics accumulate; they are never
/// fatal.
#[derive(Clone, Copy, Debug, PartialEq, Eq, Structural)]
pub enum Diagnostic {
    /// A blob's kind differs from its pack's declared kind.
    BlobKindMismatch { pack: Id, blob: Id, found: BlobKind, expected: BlobKind },
    /// A blob's recorded offset differs from the end of the previous
    /// blob.
    BlobOffsetMismatch { pack: Id, blob: Id, recorded: u32, expected: u64 },
    /// The backend stores a pack that no index file references.
    PackNotReferenced { pack: Id },
    /// The size computed from the index differs from the stored pack
    /// file's size.
    PackSizeMismatch { pack: Id, index_size: u64, actual_size: u64 },
    /// The index references a pack the backend does not store.
    PackMissing { pack: Id },
    /// A file node's content list holds the null id.
    FileBlobNull { tree: Id, node_index: u64, blob_index: u64 },
    /// A file node references a data blob the index does not know.
    FileBlobMissing { tree: Id, node_index: u64, blob: Id },
    /// A directory node has no subtree reference at all.
    SubtreeMissing { tree: Id, node_index: u64 },
    /// A directory node's subtree reference is the null id.
    SubtreeNull { tree: Id, node_index: u64 },
    /// A cached file's bytes differ from the authoritative backend's.
    CacheMismatch { file_type: FileType, id: Id },
}

// ------------------------------------------------------------------
// Sorting a pack's blobs.
//
// The index lists a pack's blobs in arbitrary order; the offset check
// runs over the list sorted by offset. Ties (possible only in corrupt
// descriptors) are broken by length, kind and id, so the order is total
// and the sorted sequence is unique.
// ------------------------------------------------------------------

pub open spec fn kind_rank(k: BlobKind) -> int {
    match k {
        BlobKind::Tree => 0,
        BlobKind::Data => 1,
    }
}

pub open spec fn id_le(a: Id, b: Id) -> bool {
    if a.w0 != b.w0 {
        a.w0 < b.w0
    } else if a.w1 != b.w1 {
        a.w1 < b.w1
    } else if a.w2 != b.w2 {
        a.w2 < b.w2
    } else {
        a.w3 <= b.w3
    }
}

pub open spec fn blob_le(a: IndexBlob, b: IndexBlob) -> bool {
    if a.offset != b.offset {
        a.offset < b.offset
    } else if a.length != b.length {
        a.length < b.length
    } else if kind_rank(a.kind) != kind_rank(b.kind) {
        kind_rank(a.kind) < kind_rank(b.kind)
    } else {
        id_le(a.id, b.id)
    }
}

pub open spec fn blob_order() -> spec_fn(IndexBlob, IndexBlob) -> bool {
    |a: IndexBlob, b: IndexBlob| blob_le(a, b)
}

pub proof fn lemma_blob_order_total()
    ensures
        total_ordering(blob_order()),
{
    assert forall|a: IndexBlob, b: IndexBlob| #[trigger]
        blob_le(a, b) && blob_le(b, a) implies a == b by {
        assert(a.id == b.id);
    }
}

fn id_le_exec(a: &Id, b: &Id) -> (r: bool)
    ensures
        r == id_le(*a, *b),
{
    if a.w0 != b.w0 {
        a.w0 < b.w0
    } else if a.w1 != b.w1 {
        a.w1 < b.w1
    } else if a.w2 != b.w2 {
        a.w2 < b.w2
    } else {
        a.w3 <= b.w3
    }
}

fn kind_rank_exec(k: BlobKind) -> (r: u8)
    ensures
        r as int == kind_rank(k),
{
    match k {
        BlobKind::Tree => 0,
        BlobKind::Data => 1,
    }
}

fn blob_le_exec(a: &IndexBlob, b: &IndexBlob) -> (r: bool)
    ensures
        r == blob_le(*a, *b),
{
    if a.offset != b.offset {
        a.offset < b.offset
    } else if a.length != b.length {
        a.length < b.length
    } else if kind_rank_exec(a.kind) != kind_rank_exec(b.kind) {
        kind_rank_exec(a.kind) < kind_rank_exec(b.kind)
    } else {
        id_le_exec(&a.id, &b.id)
    }
}

/// The position in the sorted prefix `r` at which `b` is inserted.
fn insertion_point(r: &Vec<IndexBlob>, b: &IndexBlob) -> (j: usize)
    ensures
        j <= r@.len(),
        forall|k: int| 0 <= k < j ==> blob_le(#[trigger] r@[k], *b),
        j < r@.len() ==> !blob_le(r@[j as int], *b),
{
    let mut j: usize = 0;
    while j < r.len()
        invariant
            0 <= j <= r@.len(),
            forall|k: int| 0 <= k < j ==> blob_le(#[trigger] r@[k], *b),
        decreases r@.len() - j,
    {
        if !blob_le_exec(&r[j], b) {
            return j;
        }
        j = j + 1;
    }
    j
}

/// The pack's blob list sorted by offset (ties broken by the remaining
/// fields, so the result is the unique sorted permutation).
pub fn sort_blobs(v: &Vec<IndexBlob>) -> (r: Vec<IndexBlob>)
    ensures
        r@ == v@.sort_by(blob_order()),
        r@.len() == v@.len(),
{
    broadcast use vstd::seq_lib::group_to_multiset_ensures;

    let mut r: Vec<IndexBlob> = Vec::new();
    let mut i: usize = 0;
    while i < v.len()
        invariant
            0 <= i <= v@.len(),
            r@.len() == i,
            sorted_by(r@, blob_order()),
            r@.to_multiset() == v@.take(i as int).to_multiset(),
        decreases v@.len() - i,
    {
        let b = v[i];
        let j = insertion_point(&r, &b);
        let ghost r_old = r@;
        r.insert(j, b);
        proof {
            lemma_blob_order_total();
            assert(r@ =~= r_old.insert(j as int, b));
            assert forall|p: int, q: int| 0 <= p < q < r@.len() implies #[trigger]
                blob_order()(r@[p], r@[q]) by {
                if q < j {
                    assert(r@[p] == r_old[p] && r@[q] == r_old[q]);
                    assert(blob_order()(r_old[p], r_old[q]));
                } else if p > j {
                    assert(r@[p] == r_old[p - 1] && r@[q] == r_old[q - 1]);
                    assert(blob_order()(r_old[p - 1], r_old[q - 1]));
                } else if q == j {
                    assert(r@[p] == r_old[p] && r@[q] == b);
                    assert(blob_le(r_old[p], b));
                } else if p == j {
                    // b precedes the element it displaced, and that
                    // element precedes everything after it.
                    assert(r@[p] == b && r@[q] == r_old[q - 1]);
                    assert(!blob_le(r_old[j as int], b));
                    assert(blob_le(b, r_old[j as int]));
                    if q > j + 1 {
                        assert(blob_order()(r_old[j as int], r_old[q - 1]));
                    }
                } else {
                    // p < j < q, so both stand in the old prefix
                    assert(r@[p] == r_old[p] && r@[q] == r_old[q - 1]);
                    assert(blob_order()(r_old[p], r_old[q - 1]));
                }
            }
            assert(v@.take(i + 1) =~= v@.take(i as int).push(v@[i as int]));
            vstd::seq_lib::to_multiset_insert(r_old, j as int, b);
            vstd::seq_lib::to_multiset_build(v@.take(i as int), v@[i as int]);
            assert(r@.to_multiset() == r_old.insert(j as int, b).to_multiset());
        }
        i = i + 1;
    }
    proof {
        lemma_blob_order_total();
        assert(v@.take(v@.len() as int) =~= v@);
        v@.lemma_sort_by_ensures(blob_order());
        lemma_sorted_unique(r@, v@.sort_by(blob_order()), blob_order());
        assert(r@ == v@.sort_by(blob_order()));
    }
    r
}

// ------------------------------------------------------------------
// Checking one pack descriptor.
// ------------------------------------------------------------------

/// The summed length of the first `n` blobs: the offset at which blob
/// `n` must start in a contiguous pack.
pub open spec fn len_sum(s: Seq<IndexBlob>, n: int) -> int
    decreases n,
{
    if n <= 0 {
        0
    } else {
        len_sum(s, n - 1) + s[n - 1].length
    }
}

pub proof fn lemma_len_sum_bound(s: Seq<IndexBlob>, n: int)
    requires
        0 <= n <= s.len(),
    ensures
        0 <= len_sum(s, n) <= n * 0xffff_ffff,
    decreases n,
{
    if n > 0 {
        lemma_len_sum_bound(s, n - 1);
        assert(n * 0xffff_ffff == (n - 1) * 0xffff_ffff + 0xffff_ffff) by (nonlinear_arith);
    }
}

/// The diagnostics the offset/kind check emits for the offset-sorted
/// blob list `s` from position `i` on, when the preceding blobs end at
/// `expected`.
pub open spec fn pack_diags_from(
    pack: Id,
    declared: BlobKind,
    s: Seq<IndexBlob>,
    i: int,
    expected: int,
) -> Seq<Diagnostic>
    decreases s.len() - i,
{
    if i < 0 || i >= s.len() {
        Seq::empty()
    } else {
        let b = s[i];
        let kind_part: Seq<Diagnostic> = if b.kind != declared {
            seq![Diagnostic::BlobKindMismatch { pack, blob: b.id, found: b.kind, expected: declared }]
        } else {
            Seq::empty()
        };
        let offset_part: Seq<Diagnostic> = if b.offset as int != expected {
            seq![Diagnostic::BlobOffsetMismatch {
                pack,
                blob: b.id,
                recorded: b.offset,
                expected: expected as u64,
            }]
        } else {
            Seq::empty()
        };
        kind_part + offset_part + pack_diags_from(pack, declared, s, i + 1, expected + b.length)
    }
}

/// The diagnostics the check emits for pack `p`: its blobs sorted by
/// offset, each held against the declared kind and against the end of
/// its predecessor.
pub open spec fn spec_pack_diags(p: IndexPack) -> Seq<Diagnostic> {
    pack_diags_from(p.id, p.kind, p.blobs@.sort_by(blob_order()), 0, 0)
}

/// Offsets are exactly the partial sums of the lengths: the pack starts
/// at zero and has no gap and no overlap.
pub open spec fn offsets_contiguous(s: Seq<IndexBlob>) -> bool {
    forall|i: int| 0 <= i < s.len() ==> (#[trigger] s[i]).offset as int == len_sum(s, i)
}

/// Every blob has the pack's declared kind.
pub open spec fn kinds_uniform(s: Seq<IndexBlob>, declared: BlobKind) -> bool {
    forall|i: int| 0 <= i < s.len() ==> (#[trigger] s[i]).kind == declared
}

proof fn lemma_clean_pack_from(pack: Id, declared: BlobKind, s: Seq<IndexBlob>, i: int, expected: int)
    requires
        0 <= i <= s.len(),
        expected == len_sum(s, i),
    ensures
        pack_diags_from(pack, declared, s, i, expected).len() == 0 <==> (forall|k: int|
            i <= k < s.len() ==> (#[trigger] s[k]).offset as int == len_sum(s, k) && s[k].kind
                == declared),
    decreases s.len() - i,
{
    if i < s.len() {
        lemma_clean_pack_from(pack, declared, s, i + 1, expected + s[i].length);
    }
}

/// Sorting a pack's blobs by offset must yield offsets that are exactly
/// the partial sums of the lengths, and every blob must carry the
/// pack's declared kind: the pack check is clean precisely on the packs
/// for which both hold.
pub proof fn lemma_clean_pack(p: IndexPack)
    ensures
        spec_pack_diags(p).len() == 0 <==> (offsets_contiguous(p.blobs@.sort_by(blob_order()))
            && kinds_uniform(p.blobs@.sort_by(blob_order()), p.kind)),
{
    lemma_clean_pack_from(p.id, p.kind, p.blobs@.sort_by(blob_order()), 0, 0);
}

/// The pack's size as computed from its index entries: the sum of its
/// blobs' lengths.
pub open spec fn spec_pack_size(p: IndexPack) -> int {
    len_sum(p.blobs@, p.blobs@.len() as int)
}

/// One pack's offset/kind check: the blobs sorted by offset, each blob
/// held against the declared kind and against the end of its
/// predecessor, and every violation reported individually.
///
/// Blob offsets are 32-bit, so a descriptor cannot honestly carry more
/// entries than fit a 32-bit range; the bound keeps the running offset
/// within a 64-bit word.
pub fn check_pack(p: &IndexPack) -> (r: Vec<Diagnostic>)
    requires
        p.blobs@.len() <= 0xffff_ffff,
    ensures
        r@ == spec_pack_diags(*p),
{
    let sorted = sort_blobs(&p.blobs);
    let ghost s = p.blobs@.sort_by(blob_order());
    let mut r: Vec<Diagnostic> = Vec::new();
    let mut expected: u64 = 0;
    let mut i: usize = 0;
    while i < sorted.len()
        invariant
            sorted@ == s,
            s.len() <= 0xffff_ffff,
            0 <= i <= s.len(),
            expected == len_sum(s, i as int),
            pack_diags_from(p.id, p.kind, s, 0, 0) =~= r@ + pack_diags_from(
                p.id,
                p.kind,
                s,
                i as int,
                expected as int,
            ),
        decreases s.len() - i,
    {
        proof {
            lemma_len_sum_bound(s, i + 1);
            assert((i + 1) * 0xffff_ffff <= 0xffff_ffff * 0xffff_ffff) by (nonlinear_arith)
                requires
                    0 <= i + 1 <= 0xffff_ffff,
            ;
        }
        let b = sorted[i];
        let ghost r_prev = r@;
        let ghost kind_part: Seq<Diagnostic> = if b.kind != p.kind {
            seq![Diagnostic::BlobKindMismatch {
                pack: p.id,
                blob: b.id,
                found: b.kind,
                expected: p.kind,
            }]
        } else {
            Seq::empty()
        };
        let ghost offset_part: Seq<Diagnostic> = if b.offset as int != expected as int {
            seq![Diagnostic::BlobOffsetMismatch {
                pack: p.id,
                blob: b.id,
                recorded: b.offset,
                expected: expected,
            }]
        } else {
            Seq::empty()
        };
        if b.kind != p.kind {
            r.push(
                Diagnostic::BlobKindMismatch {
                    pack: p.id,
                    blob: b.id,
                    found: b.kind,
                    expected: p.kind,
                },
            );
        }
        if (b.offset as u64) != expected {
            r.push(
                Diagnostic::BlobOffsetMismatch {
                    pack: p.id,
                    blob: b.id,
                    recorded: b.offset,
                    expected: expected,
                },
            );
        }
        proof {
            assert(r@ =~= r_prev + kind_part + offset_part);
            assert(r_prev + kind_part + offset_part + pack_diags_from(
                p.id,
                p.kind,
                s,
                i + 1,
                expected as int + b.length,
            ) =~= r_prev + (kind_part + offset_part + pack_diags_from(
                p.id,
                p.kind,
                s,
                i + 1,
                expected as int + b.length,
            )));
        }
        expected = expected + (b.length as u64);
        i = i + 1;
    }
    r
}

/// The pack's size as the index computes it: the sum of its blobs'
/// lengths. The sum does not depend on the order of the list.
pub fn pack_size(p: &IndexPack) -> (r: u64)
    requires
        p.blobs@.len() <= 0xffff_ffff,
    ensures
        r == spec_pack_size(*p),
{
    let mut total: u64 = 0;
    let mut i: usize = 0;
    while i < p.blobs.len()
        invariant
            0 <= i <= p.blobs@.len(),
            p.blobs@.len() <= 0xffff_ffff,
            total == len_sum(p.blobs@, i as int),
        decreases p.blobs@.len() - i,
    {
        proof {
            lemma_len_sum_bound(p.blobs@, i + 1);
            assert((i + 1) * 0xffff_ffff <= 0xffff_ffff * 0xffff_ffff) by (nonlinear_arith)
                requires
                    0 <= i + 1 <= 0xffff_ffff,
            ;
        }
        total = total + (p.blobs[i].length as u64);
        i = i + 1;
    }
    total
}


// ------------------------------------------------------------------
// Phase 1: the cache mirror check.
//
// The caller reads each cached file and its authoritative counterpart;
// the comparison and the exact set of flagged pairs live here.
// ------------------------------------------------------------------

/// One cached file of a given category, with the bytes read from the
/// cache and from the authoritative backend.
#[derive(Clone, Debug)]
pub struct CacheEntry {
    pub id: Id,
    pub cached: Vec<u8>,
    pub backend: Vec<u8>,
}

/// The diagnostics of the cache mirror check from entry `i` on: one
/// mismatch report per entry whose two byte strings differ.
pub open spec fn cache_diags_from(ft: FileType, s: Seq<CacheEntry>, i: int) -> Seq<Diagnostic>
    decreases s.len() - i,
{
    if i < 0 || i >= s.len() {
        Seq::empty()
    } else {
        let rest = cache_diags_from(ft, s, i + 1);
        if s[i].cached@ != s[i].backend@ {
            seq![Diagnostic::CacheMismatch { file_type: ft, id: s[i].id }] + rest
        } else {
            rest
        }
    }
}

/// The cache mirror check for one file category: every entry is
/// compared byte for byte, and exactly the differing ones are flagged.
pub fn check_cache_entries(file_type: FileType, entries: &Vec<CacheEntry>) -> (r: Vec<Diagnostic>)
    ensures
        r@ == cache_diags_from(file_type, entries@, 0),
{
    let mut r: Vec<Diagnostic> = Vec::new();
    let mut i: usize = 0;
    while i < entries.len()
        invariant
            0 <= i <= entries@.len(),
            cache_diags_from(file_type, entries@, 0) =~= r@ + cache_diags_from(
                file_type,
                entries@,
                i as int,
            ),
        decreases entries@.len() - i,
    {
        let ghost r_prev = r@;
        let e = &entries[i];
        if !crate::model::bytes_eq(&e.cached, &e.backend) {
            r.push(Diagnostic::CacheMismatch { file_type, id: e.id });
            proof {
                assert(r@ =~= r_prev + seq![
                    Diagnostic::CacheMismatch { file_type, id: entries@[i as int].id },
                ]);
                assert(r_prev + seq![
                    Diagnostic::CacheMismatch { file_type, id: entries@[i as int].id },
                ] + cache_diags_from(file_type, entries@, i + 1) =~= r_prev + (seq![
                    Diagnostic::CacheMismatch { file_type, id: entries@[i as int].id },
                ] + cache_diags_from(file_type, entries@, i + 1)));
            }
        }
        i = i + 1;
    }
    r
}

/// The cache mirror check flags exactly the entries whose cached bytes
/// differ from the backend's: it is silent precisely when every cached
/// file is byte-identical to its authoritative counterpart.
pub proof fn lemma_cache_check_silent(ft: FileType, s: Seq<CacheEntry>)
    ensures
        cache_diags_from(ft, s, 0).len() == 0 <==> (forall|i: int|
            0 <= i < s.len() ==> (#[trigger] s[i]).cached@ == s[i].backend@),
{
    lemma_cache_check_silent_from(ft, s, 0);
}

proof fn lemma_cache_check_silent_from(ft: FileType, s: Seq<CacheEntry>, i: int)
    requires
        0 <= i <= s.len(),
    ensures
        cache_diags_from(ft, s, i).len() == 0 <==> (forall|k: int|
            i <= k < s.len() ==> (#[trigger] s[k]).cached@ == s[k].backend@),
    decreases s.len() - i,
{
    if i < s.len() {
        lemma_cache_check_silent_from(ft, s, i + 1);
    }
}


// ------------------------------------------------------------------
// Phase 2: the pack/index cross-check.
//
// Every pack descriptor of every index file is checked, a map from pack
// id to computed size is accumulated (later descriptors overwrite
// earlier ones, as a map insert would), and the map is reconciled
// against the packs the backend actually lists. The same pass collects
// the blob lookup that the graph check and the file access layer use.
// ------------------------------------------------------------------

pub open spec fn packs_bounded(packs: Seq<IndexPack>) -> bool {
    forall|i: int| 0 <= i < packs.len() ==> (#[trigger] packs[i]).blobs@.len() <= 0xffff_ffff
}

pub open spec fn files_bounded(files: Seq<IndexFile>) -> bool {
    forall|i: int|
        0 <= i < files.len() ==> packs_bounded((#[trigger] files[i]).packs@) && packs_bounded(
            files[i].packs_to_delete@,
        )
}

/// The pack diagnostics of the first `n` packs of one descriptor list.
pub open spec fn packs_diags_upto(packs: Seq<IndexPack>, n: int) -> Seq<Diagnostic>
    decreases n,
{
    if n <= 0 {
        Seq::empty()
    } else {
        packs_diags_upto(packs, n - 1) + spec_pack_diags(packs[n - 1])
    }
}

/// The pack diagnostics of one index file: its live packs first, then
/// the packs pending removal, both checked unconditionally.
pub open spec fn spec_file_diags(f: IndexFile) -> Seq<Diagnostic> {
    packs_diags_upto(f.packs@, f.packs@.len() as int) + packs_diags_upto(
        f.packs_to_delete@,
        f.packs_to_delete@.len() as int,
    )
}

pub open spec fn files_diags_upto(files: Seq<IndexFile>, n: int) -> Seq<Diagnostic>
    decreases n,
{
    if n <= 0 {
        Seq::empty()
    } else {
        files_diags_upto(files, n - 1) + spec_file_diags(files[n - 1])
    }
}

/// The first position at or after `i` whose key is `id`.
pub open spec fn key_pos(m: Seq<(Id, u64)>, i: int, id: Id) -> Option<int>
    decreases m.len() - i,
{
    if i < 0 || i >= m.len() {
        None
    } else if m[i].0 == id {
        Some(i)
    } else {
        key_pos(m, i + 1, id)
    }
}

/// Insert-or-overwrite on the accumulated size map.
pub open spec fn spec_upsert(m: Seq<(Id, u64)>, id: Id, size: u64) -> Seq<(Id, u64)> {
    match key_pos(m, 0, id) {
        Some(k) => m.update(k, (id, size)),
        None => m.push((id, size)),
    }
}

pub open spec fn sizes_after_packs(m: Seq<(Id, u64)>, packs: Seq<IndexPack>, n: int) -> Seq<
    (Id, u64),
>
    decreases n,
{
    if n <= 0 {
        m
    } else {
        spec_upsert(
            sizes_after_packs(m, packs, n - 1),
            packs[n - 1].id,
            spec_pack_size(packs[n - 1]) as u64,
        )
    }
}

pub open spec fn sizes_after_file(m: Seq<(Id, u64)>, f: IndexFile) -> Seq<(Id, u64)> {
    sizes_after_packs(
        sizes_after_packs(m, f.packs@, f.packs@.len() as int),
        f.packs_to_delete@,
        f.packs_to_delete@.len() as int,
    )
}

pub open spec fn sizes_upto(files: Seq<IndexFile>, n: int) -> Seq<(Id, u64)>
    decreases n,
{
    if n <= 0 {
        Seq::empty()
    } else {
        sizes_after_file(sizes_upto(files, n - 1), files[n - 1])
    }
}

/// The lookup entries one live pack contributes.
pub open spec fn entries_of_pack(p: IndexPack) -> Seq<IndexEntry> {
    p.blobs@.map_values(
        |b: IndexBlob|
            IndexEntry { id: b.id, kind: b.kind, pack: p.id, offset: b.offset, length: b.length },
    )
}

pub open spec fn pack_entries_upto(packs: Seq<IndexPack>, n: int) -> Seq<IndexEntry>
    decreases n,
{
    if n <= 0 {
        Seq::empty()
    } else {
        pack_entries_upto(packs, n - 1) + entries_of_pack(packs[n - 1])
    }
}

/// The blob lookup holds the blobs of every live pack of every index
/// file, in listed order; packs pending removal contribute none.
pub open spec fn spec_index_entries(files: Seq<IndexFile>, n: int) -> Seq<IndexEntry>
    decreases n,
{
    if n <= 0 {
        Seq::empty()
    } else {
        spec_index_entries(files, n - 1) + pack_entries_upto(
            files[n - 1].packs@,
            files[n - 1].packs@.len() as int,
        )
    }
}

/// The "referenced but missing" reports for the packs left unmatched.
pub open spec fn missing_from(m: Seq<(Id, u64)>, k: int) -> Seq<Diagnostic>
    decreases m.len() - k,
{
    if k < 0 || k >= m.len() {
        Seq::empty()
    } else {
        seq![Diagnostic::PackMissing { pack: m[k].0 }] + missing_from(m, k + 1)
    }
}

/// Reconciling the accumulated sizes against the backend's pack listing
/// from position `j` on: unknown packs are orphans, known ones are
/// matched (and consumed) with their sizes compared, and whatever stays
/// in the map afterwards is reported missing.
pub open spec fn reconcile_from(m: Seq<(Id, u64)>, listed: Seq<(Id, u64)>, j: int) -> Seq<
    Diagnostic,
>
    decreases listed.len() - j,
{
    if j < 0 || j >= listed.len() {
        missing_from(m, 0)
    } else {
        let id = listed[j].0;
        let actual = listed[j].1;
        match key_pos(m, 0, id) {
            None => seq![Diagnostic::PackNotReferenced { pack: id }] + reconcile_from(
                m,
                listed,
                j + 1,
            ),
            Some(k) => {
                let part: Seq<Diagnostic> = if m[k].1 != actual {
                    seq![Diagnostic::PackSizeMismatch {
                        pack: id,
                        index_size: m[k].1,
                        actual_size: actual,
                    }]
                } else {
                    Seq::empty()
                };
                part + reconcile_from(m.remove(k), listed, j + 1)
            },
        }
    }
}

/// Everything the pack/index cross-check reports: the per-pack checks
/// of every index file, then the reconciliation against the backend's
/// listing.
pub open spec fn spec_check_packs_diags(files: Seq<IndexFile>, listed: Seq<(Id, u64)>) -> Seq<
    Diagnostic,
> {
    files_diags_upto(files, files.len() as int) + reconcile_from(
        sizes_upto(files, files.len() as int),
        listed,
        0,
    )
}

fn find_size_pos(sizes: &Vec<(Id, u64)>, id: &Id) -> (r: Option<usize>)
    ensures
        match r {
            Some(k) => k < sizes@.len() && key_pos(sizes@, 0, *id) == Some(k as int),
            None => key_pos(sizes@, 0, *id) is None,
        },
{
    let mut k: usize = 0;
    while k < sizes.len()
        invariant
            0 <= k <= sizes@.len(),
            key_pos(sizes@, 0, *id) == key_pos(sizes@, k as int, *id),
        decreases sizes@.len() - k,
    {
        if sizes[k].0 == *id {
            return Some(k);
        }
        k = k + 1;
    }
    None
}

fn upsert_size(sizes: &mut Vec<(Id, u64)>, id: Id, size: u64)
    ensures
        final(sizes)@ == spec_upsert(old(sizes)@, id, size),
{
    match find_size_pos(sizes, &id) {
        Some(k) => {
            sizes[k] = (id, size);
        },
        None => {
            sizes.push((id, size));
        },
    }
}

fn collect_entries(packs: &Vec<IndexPack>, out: &mut Vec<IndexEntry>)
    ensures
        final(out)@ == old(out)@ + pack_entries_upto(packs@, packs@.len() as int),
{
    let mut i: usize = 0;
    while i < packs.len()
        invariant
            0 <= i <= packs@.len(),
            out@ == old(out)@ + pack_entries_upto(packs@, i as int),
        decreases packs@.len() - i,
    {
        let p = &packs[i];
        let ghost base = out@;
        let ghost f = |b: IndexBlob|
            IndexEntry { id: b.id, kind: b.kind, pack: p.id, offset: b.offset, length: b.length };
        let mut j: usize = 0;
        while j < p.blobs.len()
            invariant
                0 <= j <= p.blobs@.len(),
                out@ == base + p.blobs@.take(j as int).map_values(f),
                f == (|b: IndexBlob|
                    IndexEntry {
                        id: b.id,
                        kind: b.kind,
                        pack: p.id,
                        offset: b.offset,
                        length: b.length,
                    }),
            decreases p.blobs@.len() - j,
        {
            let b = p.blobs[j];
            out.push(
                IndexEntry { id: b.id, kind: b.kind, pack: p.id, offset: b.offset, length: b.length },
            );
            proof {
                assert(p.blobs@.take(j + 1).map_values(f) =~= p.blobs@.take(j as int).map_values(
                    f,
                ).push(f(p.blobs@[j as int])));
            }
            j = j + 1;
        }
        proof {
            assert(p.blobs@.take(p.blobs@.len() as int) =~= p.blobs@);
            assert(entries_of_pack(packs@[i as int]) == p.blobs@.map_values(f));
            assert(out@ =~= old(out)@ + pack_entries_upto(packs@, i + 1));
        }
        i = i + 1;
    }
}

fn process_pack_group(packs: &Vec<IndexPack>, sizes: &mut Vec<(Id, u64)>, diags: &mut Vec<Diagnostic>)
    requires
        packs_bounded(packs@),
    ensures
        final(diags)@ == old(diags)@ + packs_diags_upto(packs@, packs@.len() as int),
        final(sizes)@ == sizes_after_packs(old(sizes)@, packs@, packs@.len() as int),
{
    let mut i: usize = 0;
    while i < packs.len()
        invariant
            packs_bounded(packs@),
            0 <= i <= packs@.len(),
            diags@ == old(diags)@ + packs_diags_upto(packs@, i as int),
            sizes@ == sizes_after_packs(old(sizes)@, packs@, i as int),
        decreases packs@.len() - i,
    {
        let p = &packs[i];
        let size = pack_size(p);
        upsert_size(sizes, p.id, size);
        let mut pd = check_pack(p);
        diags.append(&mut pd);
        proof {
            assert(size == spec_pack_size(packs@[i as int]) as u64);
            assert(diags@ =~= old(diags)@ + packs_diags_upto(packs@, i + 1));
        }
        i = i + 1;
    }
}

/// The pack/index cross-check. `files` are the streamed index files;
/// `listed` is the backend's pack listing as (id, stored size) pairs.
/// Returns every diagnostic of the phase, in order, and the blob lookup
/// built from the live packs.
pub fn check_packs(files: &Vec<IndexFile>, listed: &Vec<(Id, u64)>) -> (r: (
    Vec<Diagnostic>,
    BlobIndex,
))
    requires
        files_bounded(files@),
    ensures
        r.0@ == spec_check_packs_diags(files@, listed@),
        r.1.entries@ == spec_index_entries(files@, files@.len() as int),
{
    let mut diags: Vec<Diagnostic> = Vec::new();
    let mut sizes: Vec<(Id, u64)> = Vec::new();
    let mut entries: Vec<IndexEntry> = Vec::new();
    let mut i: usize = 0;
    while i < files.len()
        invariant
            files_bounded(files@),
            0 <= i <= files@.len(),
            diags@ == files_diags_upto(files@, i as int),
            sizes@ == sizes_upto(files@, i as int),
            entries@ == spec_index_entries(files@, i as int),
        decreases files@.len() - i,
    {
        let f = &files[i];
        collect_entries(&f.packs, &mut entries);
        let ghost diags_before = diags@;
        let ghost live_part = packs_diags_upto(f.packs@, f.packs@.len() as int);
        let ghost del_part = packs_diags_upto(f.packs_to_delete@, f.packs_to_delete@.len() as int);
        process_pack_group(&f.packs, &mut sizes, &mut diags);
        process_pack_group(&f.packs_to_delete, &mut sizes, &mut diags);
        proof {
            assert(diags@ =~= diags_before + live_part + del_part);
            assert(diags_before + live_part + del_part =~= diags_before + (live_part + del_part));
            assert(diags@ =~= files_diags_upto(files@, i + 1));
        }
        i = i + 1;
    }
    let mut j: usize = 0;
    while j < listed.len()
        invariant
            0 <= j <= listed@.len(),
            spec_check_packs_diags(files@, listed@) =~= diags@ + reconcile_from(
                sizes@,
                listed@,
                j as int,
            ),
        decreases listed@.len() - j,
    {
        let (id, actual) = listed[j];
        let ghost diags_prev = diags@;
        let ghost m_prev = sizes@;
        match find_size_pos(&sizes, &id) {
            None => {
                diags.push(Diagnostic::PackNotReferenced { pack: id });
                proof {
                    assert(diags@ =~= diags_prev + seq![
                        Diagnostic::PackNotReferenced { pack: id },
                    ]);
                    assert(diags_prev + seq![Diagnostic::PackNotReferenced { pack: id }]
                        + reconcile_from(sizes@, listed@, j + 1) =~= diags_prev + (seq![
                        Diagnostic::PackNotReferenced { pack: id },
                    ] + reconcile_from(sizes@, listed@, j + 1)));
                }
            },
            Some(k) => {
                let index_size = sizes[k].1;
                let ghost part: Seq<Diagnostic> = if m_prev[k as int].1 != actual {
                    seq![Diagnostic::PackSizeMismatch {
                        pack: id,
                        index_size: m_prev[k as int].1,
                        actual_size: actual,
                    }]
                } else {
                    Seq::empty()
                };
                if index_size != actual {
                    diags.push(
                        Diagnostic::PackSizeMismatch { pack: id, index_size, actual_size: actual },
                    );
                }
                sizes.remove(k);
                proof {
                    assert(diags@ =~= diags_prev + part);
                    assert(diags_prev + part + reconcile_from(sizes@, listed@, j + 1) =~= diags_prev
                        + (part + reconcile_from(sizes@, listed@, j + 1)));
                }
            },
        }
        j = j + 1;
    }
    let mut k: usize = 0;
    while k < sizes.len()
        invariant
            0 <= k <= sizes@.len(),
            spec_check_packs_diags(files@, listed@) =~= diags@ + missing_from(sizes@, k as int),
        decreases sizes@.len() - k,
    {
        let ghost diags_prev = diags@;
        diags.push(Diagnostic::PackMissing { pack: sizes[k].0 });
        proof {
            assert(diags@ =~= diags_prev + seq![
                Diagnostic::PackMissing { pack: sizes@[k as int].0 },
            ]);
            assert(diags_prev + seq![Diagnostic::PackMissing { pack: sizes@[k as int].0 }]
                + missing_from(sizes@, k + 1) =~= diags_prev + (seq![
                Diagnostic::PackMissing { pack: sizes@[k as int].0 },
            ] + missing_from(sizes@, k + 1)));
        }
        k = k + 1;
    }
    (diags, BlobIndex { entries })
}


// ------------------------------------------------------------------
// Phase 3: the snapshot/tree graph check.
//
// The caller streams the snapshots, seeds the walker with their root
// trees, and then fetches one tree at a time: the walker hands out the
// next tree id to load and takes the loaded tree back. A seen-set keyed
// by tree id guarantees that a tree shared by several snapshots or
// directories is checked exactly once.
// ------------------------------------------------------------------

/// The root tree ids of the streamed snapshots, in order.
pub fn snapshot_roots(snapshots: &Vec<Snapshot>) -> (r: Vec<Id>)
    ensures
        r@ == snapshots@.map_values(|s: Snapshot| s.tree),
{
    let mut r: Vec<Id> = Vec::new();
    let mut i: usize = 0;
    while i < snapshots.len()
        invariant
            0 <= i <= snapshots@.len(),
            r@ == snapshots@.take(i as int).map_values(|s: Snapshot| s.tree),
        decreases snapshots@.len() - i,
    {
        r.push(snapshots[i].tree);
        proof {
            assert(snapshots@.take(i + 1).map_values(|s: Snapshot| s.tree) =~= snapshots@.take(
                i as int,
            ).map_values(|s: Snapshot| s.tree).push(snapshots@[i as int].tree));
        }
        i = i + 1;
    }
    proof {
        assert(snapshots@.take(snapshots@.len() as int) =~= snapshots@);
    }
    r
}

/// A tree waiting to be fetched, with the path under which it was first
/// encountered (for diagnostic messages).
#[derive(Clone, Debug)]
pub struct PendingTree {
    pub id: Id,
    pub path: Vec<u8>,
}

pub open spec fn pending_ids(s: Seq<PendingTree>) -> Seq<Id> {
    s.map_values(|p: PendingTree| p.id)
}

/// The path of a child tree: the parent's path, a separator, the
/// directory node's name.
pub open spec fn child_path(parent: Seq<u8>, name: Seq<u8>) -> Seq<u8> {
    parent + seq![47u8] + name
}

fn child_path_exec(parent: &Vec<u8>, name: &Vec<u8>) -> (r: Vec<u8>)
    ensures
        r@ == child_path(parent@, name@),
{
    let mut r = crate::model::copy_bytes(parent);
    r.push(47u8);  // '/'
    let mut i: usize = 0;
    while i < name.len()
        invariant
            0 <= i <= name@.len(),
            r@ == parent@ + seq![47u8] + name@.take(i as int),
        decreases name@.len() - i,
    {
        r.push(name[i]);
        proof {
            assert(parent@ + seq![47u8] + name@.take(i + 1) =~= (parent@ + seq![47u8] + name@.take(
                i as int,
            )).push(name@[i as int]));
        }
        i = i + 1;
    }
    proof {
        assert(name@.take(name@.len() as int) =~= name@);
    }
    r
}

fn id_in(v: &Vec<Id>, id: &Id) -> (r: bool)
    ensures
        r == v@.contains(*id),
{
    let mut i: usize = 0;
    while i < v.len()
        invariant
            0 <= i <= v@.len(),
            forall|k: int| 0 <= k < i ==> v@[k] != *id,
        decreases v@.len() - i,
    {
        if v[i] == *id {
            return true;
        }
        i = i + 1;
    }
    false
}

/// The diagnostics for one file node's content list from entry `j` on:
/// a null id is flagged as such (and looked up no further); a non-null
/// id missing from the index is flagged as missing.
pub open spec fn content_diags(tree: Id, node_idx: int, ids: Seq<Id>, j: int, index: BlobIndex) -> Seq<Diagnostic>
    decreases ids.len() - j,
{
    if j < 0 || j >= ids.len() {
        Seq::empty()
    } else {
        let id = ids[j];
        let part: Seq<Diagnostic> = if id.spec_is_null() {
            seq![Diagnostic::FileBlobNull { tree, node_index: node_idx as u64, blob_index: j as u64 }]
        } else if !index.spec_has(id, BlobKind::Data) {
            seq![Diagnostic::FileBlobMissing { tree, node_index: node_idx as u64, blob: id }]
        } else {
            Seq::empty()
        };
        part + content_diags(tree, node_idx, ids, j + 1, index)
    }
}

/// The diagnostics one node contributes: files have their content ids
/// held against the index, directories must carry a non-null subtree
/// reference; other node kinds need no graph-integrity check.
pub open spec fn node_diags(tree: Id, nodes: Seq<Node>, idx: int, index: BlobIndex) -> Seq<Diagnostic> {
    let n = nodes[idx];
    match n.node_type {
        NodeType::File => content_diags(tree, idx, n.content@, 0, index),
        NodeType::Dir => match n.subtree {
            None => seq![Diagnostic::SubtreeMissing { tree, node_index: idx as u64 }],
            Some(t) => if t.spec_is_null() {
                seq![Diagnostic::SubtreeNull { tree, node_index: idx as u64 }]
            } else {
                Seq::empty()
            },
        },
        _ => Seq::empty(),
    }
}

pub open spec fn tree_diags_upto(tree: Id, nodes: Seq<Node>, n: int, index: BlobIndex) -> Seq<Diagnostic>
    decreases n,
{
    if n <= 0 {
        Seq::empty()
    } else {
        tree_diags_upto(tree, nodes, n - 1, index) + node_diags(tree, nodes, n - 1, index)
    }
}

/// Everything the graph check reports for one tree.
pub open spec fn spec_tree_diags(tree: Id, nodes: Seq<Node>, index: BlobIndex) -> Seq<Diagnostic> {
    tree_diags_upto(tree, nodes, nodes.len() as int, index)
}

/// The subtree a node sends the walker to: directories with a non-null
/// subtree reference, nothing else.
pub open spec fn subtree_candidate(n: Node) -> Option<Id> {
    if n.node_type is Dir {
        match n.subtree {
            Some(t) => if t.spec_is_null() {
                None
            } else {
                Some(t)
            },
            None => None,
        }
    } else {
        None
    }
}

/// The subtree ids a tree adds to the walk, in node order, skipping
/// ids already seen (also those first seen earlier in this same tree).
pub open spec fn enqueue_from(nodes: Seq<Node>, i: int, seen: Seq<Id>) -> Seq<Id>
    decreases nodes.len() - i,
{
    if i < 0 || i >= nodes.len() {
        Seq::empty()
    } else {
        match subtree_candidate(nodes[i]) {
            Some(t) => if !seen.contains(t) {
                seq![t] + enqueue_from(nodes, i + 1, seen.push(t))
            } else {
                enqueue_from(nodes, i + 1, seen)
            },
            None => enqueue_from(nodes, i + 1, seen),
        }
    }
}

/// Whether one node is clean: a file's content ids are all non-null and
/// indexed, a directory's subtree reference exists and is non-null.
pub open spec fn node_clean(n: Node, index: BlobIndex) -> bool {
    match n.node_type {
        NodeType::File => forall|j: int|
            0 <= j < n.content@.len() ==> !(#[trigger] n.content@[j]).spec_is_null()
                && index.spec_has(n.content@[j], BlobKind::Data),
        NodeType::Dir => match n.subtree {
            None => false,
            Some(t) => !t.spec_is_null(),
        },
        _ => true,
    }
}

proof fn lemma_clean_content(tree: Id, node_idx: int, ids: Seq<Id>, j: int, index: BlobIndex)
    requires
        0 <= j <= ids.len(),
    ensures
        content_diags(tree, node_idx, ids, j, index).len() == 0 <==> (forall|k: int|
            j <= k < ids.len() ==> !(#[trigger] ids[k]).spec_is_null() && index.spec_has(
                ids[k],
                BlobKind::Data,
            )),
    decreases ids.len() - j,
{
    if j < ids.len() {
        lemma_clean_content(tree, node_idx, ids, j + 1, index);
    }
}

proof fn lemma_clean_tree_from(tree: Id, nodes: Seq<Node>, n: int, index: BlobIndex)
    requires
        0 <= n <= nodes.len(),
    ensures
        tree_diags_upto(tree, nodes, n, index).len() == 0 <==> (forall|k: int|
            0 <= k < n ==> node_clean(#[trigger] nodes[k], index)),
    decreases n,
{
    if n > 0 {
        lemma_clean_tree_from(tree, nodes, n - 1, index);
        lemma_clean_content(tree, n - 1, nodes[n - 1].content@, 0, index);
    }
}

/// The graph check is silent on a tree exactly when every file node's
/// content ids are non-null and indexed and every directory node has a
/// non-null subtree reference.
pub proof fn lemma_clean_tree(tree: Id, nodes: Seq<Node>, index: BlobIndex)
    ensures
        spec_tree_diags(tree, nodes, index).len() == 0 <==> (forall|k: int|
            0 <= k < nodes.len() ==> node_clean(#[trigger] nodes[k], index)),
{
    lemma_clean_tree_from(tree, nodes, nodes.len() as int, index);
}

/// Enqueueing a tree id never seen before keeps the walker's
/// bookkeeping consistent.
proof fn lemma_walk_extend(
    seen_prev: Seq<Id>,
    pend_prev: Seq<PendingTree>,
    vis: Seq<Id>,
    seen_new: Seq<Id>,
    pend_new: Seq<PendingTree>,
    t: Id,
    pt: PendingTree,
)
    requires
        seen_prev.no_duplicates(),
        pending_ids(pend_prev).no_duplicates(),
        forall|i: int|
            0 <= i < pend_prev.len() ==> seen_prev.contains((#[trigger] pend_prev[i]).id),
        forall|i: int| 0 <= i < vis.len() ==> seen_prev.contains(#[trigger] vis[i]),
        forall|i: int| 0 <= i < pend_prev.len() ==> !vis.contains((#[trigger] pend_prev[i]).id),
        !seen_prev.contains(t),
        !vis.contains(t),
        pt.id == t,
        seen_new == seen_prev.push(t),
        pend_new == pend_prev.push(pt),
    ensures
        seen_new.no_duplicates(),
        pending_ids(pend_new).no_duplicates(),
        forall|i: int| 0 <= i < pend_new.len() ==> seen_new.contains((#[trigger] pend_new[i]).id),
        forall|i: int| 0 <= i < vis.len() ==> seen_new.contains(#[trigger] vis[i]),
        forall|i: int| 0 <= i < pend_new.len() ==> !vis.contains((#[trigger] pend_new[i]).id),
{
    let pids_prev = pending_ids(pend_prev);
    let pids_new = pending_ids(pend_new);
    assert(pids_new =~= pids_prev.push(t));
    assert forall|a: int, b: int|
        0 <= a < seen_new.len() && 0 <= b < seen_new.len() && a != b implies seen_new[a]
        != seen_new[b] by {
        if a == seen_new.len() - 1 {
            assert(seen_prev.contains(seen_prev[b]));
        } else if b == seen_new.len() - 1 {
            assert(seen_prev.contains(seen_prev[a]));
        }
    }
    assert forall|i: int| 0 <= i < pids_prev.len() implies pids_prev[i] != t by {
        assert(seen_prev.contains(pend_prev[i].id));
    }
    assert forall|a: int, b: int|
        0 <= a < pids_new.len() && 0 <= b < pids_new.len() && a != b implies pids_new[a]
        != pids_new[b] by {
        if a == pids_new.len() - 1 {
            assert(pids_new[b] == pids_prev[b]);
        } else if b == pids_new.len() - 1 {
            assert(pids_new[a] == pids_prev[a]);
        }
    }
    assert forall|i: int| 0 <= i < pend_new.len() implies seen_new.contains(
        (#[trigger] pend_new[i]).id,
    ) by {
        if i < pend_new.len() - 1 {
            assert(seen_prev.contains(pend_prev[i].id));
            let w = choose|w: int| 0 <= w < seen_prev.len() && seen_prev[w] == pend_prev[i].id;
            assert(seen_new[w] == pend_prev[i].id);
        } else {
            assert(seen_new[seen_new.len() - 1] == t);
        }
    }
    assert forall|i: int| 0 <= i < vis.len() implies seen_new.contains(#[trigger] vis[i]) by {
        assert(seen_prev.contains(vis[i]));
        let w = choose|w: int| 0 <= w < seen_prev.len() && seen_prev[w] == vis[i];
        assert(seen_new[w] == vis[i]);
    }
    assert forall|i: int| 0 <= i < pend_new.len() implies !vis.contains(
        (#[trigger] pend_new[i]).id,
    ) by {
        if i < pend_new.len() - 1 {
            assert(!vis.contains(pend_prev[i].id));
        }
    }
}

/// The walker of the snapshot/tree graph. It owns the queue of trees
/// still to fetch and the set of tree ids ever enqueued; the caller
/// loads each tree the walker hands out and returns it for checking.
pub struct TreeChecker {
    pending: Vec<PendingTree>,
    seen: Vec<Id>,
    visited: Ghost<Seq<Id>>,
}

impl TreeChecker {
    pub closed spec fn pending_view(self) -> Seq<PendingTree> {
        self.pending@
    }

    pub closed spec fn seen_view(self) -> Seq<Id> {
        self.seen@
    }

    /// The tree ids handed out so far, in order.
    pub closed spec fn visited_view(self) -> Seq<Id> {
        self.visited@
    }

    pub open spec fn wf(self) -> bool {
        &&& self.seen_view().no_duplicates()
        &&& pending_ids(self.pending_view()).no_duplicates()
        &&& self.visited_view().no_duplicates()
        &&& forall|i: int|
            0 <= i < self.pending_view().len() ==> self.seen_view().contains(
                (#[trigger] self.pending_view()[i]).id,
            )
        &&& forall|i: int|
            0 <= i < self.visited_view().len() ==> self.seen_view().contains(
                #[trigger] self.visited_view()[i],
            )
        &&& forall|i: int|
            0 <= i < self.pending_view().len() ==> !self.visited_view().contains(
                (#[trigger] self.pending_view()[i]).id,
            )
    }

    /// Seed the walk with the snapshots' root trees, deduplicated in
    /// order; every root starts at the empty path.
    pub fn new(roots: &Vec<Id>) -> (r: TreeChecker)
        ensures
            r.wf(),
            r.visited_view() =~= Seq::<Id>::empty(),
            r.seen_view() == dedup_upto(roots@, roots@.len() as int),
            pending_ids(r.pending_view()) == r.seen_view(),
            forall|k: int|
                0 <= k < r.pending_view().len() ==> (#[trigger] r.pending_view()[k]).path@
                    =~= Seq::<u8>::empty(),
    {
        let mut pending: Vec<PendingTree> = Vec::new();
        let mut seen: Vec<Id> = Vec::new();
        let mut i: usize = 0;
        while i < roots.len()
            invariant
                0 <= i <= roots@.len(),
                seen@ == dedup_upto(roots@, i as int),
                seen@.no_duplicates(),
                pending_ids(pending@) == seen@,
                forall|k: int|
                    0 <= k < pending@.len() ==> (#[trigger] pending@[k]).path@ =~= Seq::<
                        u8,
                    >::empty(),
            decreases roots@.len() - i,
        {
            let root = roots[i];
            if !id_in(&seen, &root) {
                let ghost pend_prev = pending@;
                seen.push(root);
                pending.push(PendingTree { id: root, path: Vec::new() });
                proof {
                    assert(pending_ids(pending@) =~= pending_ids(pend_prev).push(root));
                }
            }
            i = i + 1;
        }
        proof {
            assert forall|k: int| 0 <= k < pending@.len() implies seen@.contains(
                (#[trigger] pending@[k]).id,
            ) by {
                assert(pending_ids(pending@)[k] == pending@[k].id);
                assert(seen@[k] == pending@[k].id);
            }
        }
        TreeChecker { pending, seen, visited: Ghost(Seq::empty()) }
    }

    /// The number of trees still waiting to be fetched.
    pub fn pending_count(&self) -> (r: usize)
        ensures
            r == self.pending_view().len(),
    {
        self.pending.len()
    }

    /// Hand out the next tree to fetch. A tree id comes out at most
    /// once over the whole walk.
    pub fn pop(&mut self) -> (r: Option<PendingTree>)
        requires
            old(self).wf(),
        ensures
            final(self).wf(),
            final(self).seen_view() == old(self).seen_view(),
            r is None ==> final(self).pending_view() == old(self).pending_view() && final(self).visited_view() == old(self).visited_view() && old(self).pending_view().len() == 0,
            r matches Some(pt) ==> old(self).pending_view().len() > 0 && pt == old(
                self,
            ).pending_view().last() && final(self).pending_view() == old(
                self,
            ).pending_view().drop_last() && final(self).visited_view() == old(
                self,
            ).visited_view().push(pt.id) && !old(self).visited_view().contains(pt.id),
    {
        let ghost pend_old = self.pending@;
        match self.pending.pop() {
            None => None,
            Some(pt) => {
                self.visited = Ghost(self.visited@.push(pt.id));
                proof {
                    assert(pending_ids(pend_old)[pend_old.len() - 1] == pt.id);
                    assert(pending_ids(self.pending@) =~= pending_ids(pend_old).drop_last());
                    assert forall|i: int| 0 <= i < self.visited@.len() implies self.seen@.contains(
                        #[trigger] self.visited@[i],
                    ) by {
                        if i < self.visited@.len() - 1 {
                            assert(old(self).visited_view()[i] == self.visited@[i]);
                        }
                    }
                    assert forall|i: int|
                        0 <= i < self.pending@.len() implies !self.visited@.contains(
                        (#[trigger] self.pending@[i]).id,
                    ) by {
                        assert(self.pending@[i] == pend_old[i]);
                        assert(pending_ids(pend_old)[i] == pend_old[i].id);
                        assert(pending_ids(pend_old)[pend_old.len() - 1] == pt.id);
                        if self.pending@[i].id == pt.id {
                            assert(false);
                        }
                    }
                }
                Some(pt)
            },
        }
    }

    /// Check one fetched tree and enqueue its not-yet-seen subtrees.
    /// `origin` is the entry `pop` handed out for this tree.
    pub fn check_tree(&mut self, origin: &PendingTree, tree: &Tree, index: &BlobIndex) -> (r: Vec<
        Diagnostic,
    >)
        requires
            old(self).wf(),
        ensures
            final(self).wf(),
            r@ == spec_tree_diags(origin.id, tree.nodes@, *index),
            final(self).visited_view() == old(self).visited_view(),
            final(self).seen_view() == old(self).seen_view() + enqueue_from(
                tree.nodes@,
                0,
                old(self).seen_view(),
            ),
            pending_ids(final(self).pending_view()) == pending_ids(old(self).pending_view())
                + enqueue_from(tree.nodes@, 0, old(self).seen_view()),
            forall|k: int|
                0 <= k < old(self).pending_view().len() ==> #[trigger] final(self).pending_view()[k]
                    == old(self).pending_view()[k],
            forall|k: int|
                old(self).pending_view().len() <= k < final(self).pending_view().len() ==> (exists|
                    n: int,
                |
                    0 <= n < tree.nodes@.len() && subtree_candidate(tree.nodes@[n]) == Some(
                        (#[trigger] final(self).pending_view()[k]).id,
                    ) && final(self).pending_view()[k].path@ == child_path(
                        origin.path@,
                        tree.nodes@[n].name@,
                    )),
    {
        let mut r: Vec<Diagnostic> = Vec::new();
        let ghost seen0 = self.seen@;
        let ghost pend0 = self.pending@;
        let ghost mut emitted: Seq<Id> = Seq::empty();
        let mut n: usize = 0;
        proof {
            assert(self.seen@ =~= seen0 + emitted);
            assert(pending_ids(self.pending@) =~= pending_ids(pend0) + emitted);
        }
        while n < tree.nodes.len()
            invariant
                old(self).wf(),
                self.wf(),
                0 <= n <= tree.nodes@.len(),
                seen0 == old(self).seen_view(),
                pend0 == old(self).pending_view(),
                self.visited@ == old(self).visited_view(),
                self.seen@ == seen0 + emitted,
                enqueue_from(tree.nodes@, 0, seen0) == emitted + enqueue_from(
                    tree.nodes@,
                    n as int,
                    self.seen@,
                ),
                pending_ids(self.pending@) == pending_ids(pend0) + emitted,
                forall|k: int| 0 <= k < pend0.len() ==> #[trigger] self.pending@[k] == pend0[k],
                forall|k: int|
                    pend0.len() <= k < self.pending@.len() ==> (exists|n2: int|
                        0 <= n2 < tree.nodes@.len() && #[trigger] subtree_candidate(
                            tree.nodes@[n2],
                        ) == Some((#[trigger] self.pending@[k]).id) && self.pending@[k].path@
                            == child_path(origin.path@, tree.nodes@[n2].name@)),
                r@ == tree_diags_upto(origin.id, tree.nodes@, n as int, *index),
            decreases tree.nodes@.len() - n,
        {
            let node = &tree.nodes[n];
            let ghost r_base = r@;
            let ghost nd = node_diags(origin.id, tree.nodes@, n as int, *index);
            match &node.node_type {
                NodeType::File => {
                    let ghost mut c_emit: Seq<Diagnostic> = Seq::empty();
                    let mut j: usize = 0;
                    while j < node.content.len()
                        invariant
                            0 <= j <= node.content@.len(),
                            r@ == r_base + c_emit,
                            content_diags(origin.id, n as int, node.content@, 0, *index) == c_emit
                                + content_diags(origin.id, n as int, node.content@, j as int, *index),
                            node.node_type is File,
                            node == &tree.nodes@[n as int],
                            0 <= n < tree.nodes@.len(),
                        decreases node.content@.len() - j,
                    {
                        let cid = node.content[j];
                        let ghost part: Seq<Diagnostic> = if cid.spec_is_null() {
                            seq![Diagnostic::FileBlobNull {
                                tree: origin.id,
                                node_index: n as u64,
                                blob_index: j as u64,
                            }]
                        } else if !index.spec_has(cid, BlobKind::Data) {
                            seq![Diagnostic::FileBlobMissing {
                                tree: origin.id,
                                node_index: n as u64,
                                blob: cid,
                            }]
                        } else {
                            Seq::empty()
                        };
                        if cid.is_null() {
                            r.push(
                                Diagnostic::FileBlobNull {
                                    tree: origin.id,
                                    node_index: n as u64,
                                    blob_index: j as u64,
                                },
                            );
                        } else if !index.has_data(&cid) {
                            r.push(
                                Diagnostic::FileBlobMissing {
                                    tree: origin.id,
                                    node_index: n as u64,
                                    blob: cid,
                                },
                            );
                        }
                        proof {
                            assert(r@ =~= r_base + (c_emit + part));
                            assert(c_emit + part + content_diags(
                                origin.id,
                                n as int,
                                node.content@,
                                j + 1,
                                *index,
                            ) =~= c_emit + (part + content_diags(
                                origin.id,
                                n as int,
                                node.content@,
                                j + 1,
                                *index,
                            )));
                            c_emit = c_emit + part;
                        }
                        j = j + 1;
                    }
                    proof {
                        assert(nd == content_diags(origin.id, n as int, node.content@, 0, *index));
                        assert(r@ =~= r_base + nd);
                    }
                },
                NodeType::Dir => {
                    match &node.subtree {
                        None => {
                            r.push(
                                Diagnostic::SubtreeMissing { tree: origin.id, node_index: n as u64 },
                            );
                            proof {
                                assert(r@ =~= r_base + nd);
                            }
                        },
                        Some(t) => {
                            if t.is_null() {
                                r.push(
                                    Diagnostic::SubtreeNull {
                                        tree: origin.id,
                                        node_index: n as u64,
                                    },
                                );
                                proof {
                                    assert(r@ =~= r_base + nd);
                                }
                            } else {
                                proof {
                                    assert(nd =~= Seq::<Diagnostic>::empty());
                                    assert(r@ =~= r_base + nd);
                                    assert(subtree_candidate(tree.nodes@[n as int]) == Some(*t));
                                }
                                if !id_in(&self.seen, t) {
                                    let ghost seen_prev = self.seen@;
                                    let ghost pend_prev = self.pending@;
                                    self.seen.push(*t);
                                    let path = child_path_exec(&origin.path, &node.name);
                                    self.pending.push(PendingTree { id: *t, path });
                                    proof {
                                        assert(pending_ids(self.pending@) =~= pending_ids(
                                            pend_prev,
                                        ).push(*t));
                                        assert(self.seen@ =~= seen0 + emitted.push(*t));
                                        assert(emitted + (seq![*t] + enqueue_from(
                                            tree.nodes@,
                                            n + 1,
                                            self.seen@,
                                        )) =~= emitted.push(*t) + enqueue_from(
                                            tree.nodes@,
                                            n + 1,
                                            self.seen@,
                                        ));
                                        assert(pending_ids(pend_prev).push(*t) =~= pending_ids(
                                            pend0,
                                        ) + emitted.push(*t));
                                        assert(seen_prev.push(*t) =~= self.seen@);
                                        emitted = emitted.push(*t);
                                        assert(!pending_ids(pend_prev).contains(*t)) by {
                                            if pending_ids(pend_prev).contains(*t) {
                                                let i = choose|i: int|
                                                    0 <= i < pending_ids(pend_prev).len()
                                                        && pending_ids(pend_prev)[i] == *t;
                                                assert(seen_prev.contains(pend_prev[i].id));
                                            }
                                        }
                                        assert(!old(self).visited_view().contains(*t)) by {
                                            if old(self).visited_view().contains(*t) {
                                                assert(seen_prev.contains(*t));
                                            }
                                        }
                                        let ghost newlen = self.pending@.len();
                                        lemma_walk_extend(
                                            seen_prev,
                                            pend_prev,
                                            old(self).visited_view(),
                                            self.seen@,
                                            self.pending@,
                                            *t,
                                            self.pending@[newlen - 1],
                                        );
                                        // the freshly pushed entry's witness is node n
                                        assert(self.pending@[newlen - 1].id == *t);
                                        assert(subtree_candidate(tree.nodes@[n as int]) == Some(
                                            self.pending@[newlen - 1].id,
                                        ));
                                        assert(self.pending@[newlen - 1].path@ == child_path(
                                            origin.path@,
                                            tree.nodes@[n as int].name@,
                                        ));
                                        assert forall|k: int|
                                            #![trigger self.pending@[k]]
                                            pend0.len() <= k < newlen implies (exists|n2: int|
                                            0 <= n2 < tree.nodes@.len()
                                                && #[trigger] subtree_candidate(tree.nodes@[n2])
                                                == Some((self.pending@[k]).id)
                                                && self.pending@[k].path@ == child_path(
                                                origin.path@,
                                                tree.nodes@[n2].name@,
                                            )) by {
                                            if k < newlen - 1 {
                                                assert(self.pending@[k] == pend_prev[k]);
                                            } else {
                                                assert(0 <= n < tree.nodes@.len()
                                                    && subtree_candidate(tree.nodes@[n as int])
                                                    == Some((self.pending@[k]).id)
                                                    && self.pending@[k].path@ == child_path(
                                                    origin.path@,
                                                    tree.nodes@[n as int].name@,
                                                ));
                                            }
                                        }
                                    }
                                }
                            }
                        },
                    }
                },
                _ => {
                    proof {
                        assert(nd =~= Seq::<Diagnostic>::empty());
                        assert(r@ =~= r_base + nd);
                    }
                },
            }
            n = n + 1;
        }
        proof {
            assert(emitted + Seq::<Id>::empty() =~= emitted);
            assert(r@ == spec_tree_diags(origin.id, tree.nodes@, *index));
        }
        r
    }
}

/// The roots deduplicated in first-occurrence order.
pub open spec fn dedup_upto(s: Seq<Id>, n: int) -> Seq<Id>
    decreases n,
{
    if n <= 0 {
        Seq::empty()
    } else {
        let d = dedup_upto(s, n - 1);
        if d.contains(s[n - 1]) {
            d
        } else {
            d.push(s[n - 1])
        }
    }
}

/// No tree is walked twice: the ids `pop` hands out never repeat.
pub proof fn lemma_visit_once(c: TreeChecker)
    requires
        c.wf(),
    ensures
        c.visited_view().no_duplicates(),
{
}

} // verus!
