use repofs::check::{
    check_cache_entries, check_pack, check_packs, pack_size, snapshot_roots, CacheEntry,
    Diagnostic, PendingTree, TreeChecker,
};
use repofs::index::{BlobIndex, IndexEntry};
use repofs::model::{BlobKind, FileType, Id, IndexBlob, IndexFile, IndexPack, Metadata, Node,
    NodeType, Snapshot, Tree};

fn id(n: u64) -> Id {
    Id { w0: 0, w1: 0, w2: 0, w3: n }
}

fn blob(n: u64, kind: BlobKind, offset: u32, length: u32) -> IndexBlob {
    IndexBlob { id: id(n), kind, offset, length }
}

fn meta() -> Metadata {
    Metadata {
        size: 0,
        mode: None,
        uid: None,
        gid: None,
        atime: None,
        mtime: None,
        ctime: None,
        links: None,
        xattrs: Vec::new(),
    }
}

fn file_node(name: &[u8], content: Vec<Id>) -> Node {
    Node {
        name: name.to_vec(),
        node_type: NodeType::File,
        meta: meta(),
        content,
        subtree: None,
    }
}

fn dir_node(name: &[u8], subtree: Option<Id>) -> Node {
    Node {
        name: name.to_vec(),
        node_type: NodeType::Dir,
        meta: meta(),
        content: Vec::new(),
        subtree,
    }
}

fn data_entry(n: u64, length: u32) -> IndexEntry {
    IndexEntry { id: id(n), kind: BlobKind::Data, pack: id(900), offset: 0, length }
}

#[test]
fn contiguous_pack_is_clean() {
    let p = IndexPack {
        id: id(1),
        kind: BlobKind::Data,
        blobs: vec![
            blob(10, BlobKind::Data, 0, 100),
            blob(11, BlobKind::Data, 100, 200),
            blob(12, BlobKind::Data, 300, 50),
        ],
    };
    assert_eq!(check_pack(&p), Vec::new());
    assert_eq!(pack_size(&p), 350);
}

#[test]
fn contiguous_pack_matches_backend_size() {
    let p = IndexPack {
        id: id(1),
        kind: BlobKind::Data,
        blobs: vec![
            blob(10, BlobKind::Data, 0, 100),
            blob(11, BlobKind::Data, 100, 200),
            blob(12, BlobKind::Data, 300, 50),
        ],
    };
    let files = vec![IndexFile { packs: vec![p], packs_to_delete: Vec::new() }];
    let listed = vec![(id(1), 350u64)];
    let (diags, index) = check_packs(&files, &listed);
    assert_eq!(diags, Vec::new());
    assert_eq!(index.entries.len(), 3);
}

#[test]
fn offset_mismatch_is_reported_once() {
    let p = IndexPack {
        id: id(1),
        kind: BlobKind::Data,
        blobs: vec![
            blob(10, BlobKind::Data, 0, 100),
            blob(11, BlobKind::Data, 100, 200),
            blob(12, BlobKind::Data, 310, 50),
        ],
    };
    let diags = check_pack(&p);
    assert_eq!(
        diags,
        vec![Diagnostic::BlobOffsetMismatch {
            pack: id(1),
            blob: id(12),
            recorded: 310,
            expected: 300,
        }]
    );
}

#[test]
fn unsorted_blobs_are_sorted_before_the_offset_check() {
    let p = IndexPack {
        id: id(1),
        kind: BlobKind::Tree,
        blobs: vec![
            blob(12, BlobKind::Tree, 300, 50),
            blob(10, BlobKind::Tree, 0, 100),
            blob(11, BlobKind::Tree, 100, 200),
        ],
    };
    assert_eq!(check_pack(&p), Vec::new());
}

#[test]
fn wrong_blob_kind_is_reported() {
    let p = IndexPack {
        id: id(1),
        kind: BlobKind::Data,
        blobs: vec![blob(10, BlobKind::Data, 0, 100), blob(11, BlobKind::Tree, 100, 40)],
    };
    let diags = check_pack(&p);
    assert_eq!(
        diags,
        vec![Diagnostic::BlobKindMismatch {
            pack: id(1),
            blob: id(11),
            found: BlobKind::Tree,
            expected: BlobKind::Data,
        }]
    );
}

#[test]
fn orphan_pack_is_reported() {
    let files: Vec<IndexFile> = Vec::new();
    let listed = vec![(id(7), 123u64)];
    let (diags, _) = check_packs(&files, &listed);
    assert_eq!(diags, vec![Diagnostic::PackNotReferenced { pack: id(7) }]);
}

#[test]
fn pack_size_mismatch_is_reported() {
    let p = IndexPack {
        id: id(1),
        kind: BlobKind::Data,
        blobs: vec![blob(10, BlobKind::Data, 0, 100)],
    };
    let files = vec![IndexFile { packs: vec![p], packs_to_delete: Vec::new() }];
    let listed = vec![(id(1), 90u64)];
    let (diags, _) = check_packs(&files, &listed);
    assert_eq!(
        diags,
        vec![Diagnostic::PackSizeMismatch { pack: id(1), index_size: 100, actual_size: 90 }]
    );
}

#[test]
fn referenced_but_missing_pack_is_reported() {
    let p = IndexPack {
        id: id(1),
        kind: BlobKind::Data,
        blobs: vec![blob(10, BlobKind::Data, 0, 100)],
    };
    let files = vec![IndexFile { packs: vec![p], packs_to_delete: Vec::new() }];
    let listed: Vec<(Id, u64)> = Vec::new();
    let (diags, _) = check_packs(&files, &listed);
    assert_eq!(diags, vec![Diagnostic::PackMissing { pack: id(1) }]);
}

#[test]
fn packs_pending_removal_are_checked_but_not_indexed() {
    let p = IndexPack {
        id: id(2),
        kind: BlobKind::Data,
        blobs: vec![blob(10, BlobKind::Data, 5, 100)],
    };
    let files = vec![IndexFile { packs: Vec::new(), packs_to_delete: vec![p] }];
    let listed = vec![(id(2), 100u64)];
    let (diags, index) = check_packs(&files, &listed);
    assert_eq!(
        diags,
        vec![Diagnostic::BlobOffsetMismatch { pack: id(2), blob: id(10), recorded: 5, expected: 0 }]
    );
    assert_eq!(index.entries.len(), 0);
}

#[test]
fn cache_mirror_flags_exactly_the_differing_files() {
    let entries = vec![
        CacheEntry { id: id(1), cached: vec![1, 2, 3], backend: vec![1, 2, 3] },
        CacheEntry { id: id(2), cached: vec![1, 2, 3], backend: vec![1, 2, 4] },
        CacheEntry { id: id(3), cached: Vec::new(), backend: Vec::new() },
    ];
    let diags = check_cache_entries(FileType::Index, &entries);
    assert_eq!(diags, vec![Diagnostic::CacheMismatch { file_type: FileType::Index, id: id(2) }]);
}

#[test]
fn identical_cache_produces_no_diagnostics() {
    let entries = vec![
        CacheEntry { id: id(1), cached: vec![9, 9], backend: vec![9, 9] },
        CacheEntry { id: id(2), cached: Vec::new(), backend: Vec::new() },
    ];
    assert_eq!(check_cache_entries(FileType::Pack, &entries), Vec::new());
}

#[test]
fn null_content_id_gets_one_diagnostic() {
    let index = BlobIndex { entries: vec![data_entry(10, 4)] };
    let tree = Tree { nodes: vec![file_node(b"f", vec![id(10), Id::null()])] };
    let mut walker = TreeChecker::new(&vec![id(50)]);
    let origin = walker.pop().expect("root pending");
    let diags = walker.check_tree(&origin, &tree, &index);
    assert_eq!(diags, vec![Diagnostic::FileBlobNull { tree: id(50), node_index: 0, blob_index: 1 }]);
}

#[test]
fn missing_content_id_is_reported() {
    let index = BlobIndex { entries: Vec::new() };
    let tree = Tree { nodes: vec![file_node(b"f", vec![id(10)])] };
    let mut walker = TreeChecker::new(&vec![id(50)]);
    let origin = walker.pop().expect("root pending");
    let diags = walker.check_tree(&origin, &tree, &index);
    assert_eq!(
        diags,
        vec![Diagnostic::FileBlobMissing { tree: id(50), node_index: 0, blob: id(10) }]
    );
}

#[test]
fn dir_subtree_diagnostics() {
    let index = BlobIndex { entries: Vec::new() };
    let tree = Tree {
        nodes: vec![
            dir_node(b"a", None),
            dir_node(b"b", Some(Id::null())),
        ],
    };
    let mut walker = TreeChecker::new(&vec![id(50)]);
    let origin = walker.pop().expect("root pending");
    let diags = walker.check_tree(&origin, &tree, &index);
    assert_eq!(
        diags,
        vec![
            Diagnostic::SubtreeMissing { tree: id(50), node_index: 0 },
            Diagnostic::SubtreeNull { tree: id(50), node_index: 1 },
        ]
    );
}

#[test]
fn shared_tree_is_walked_exactly_once() {
    // two snapshots share one root; the root's two directories share
    // one subtree
    let snaps = vec![Snapshot { tree: id(50) }, Snapshot { tree: id(50) }];
    let roots = snapshot_roots(&snaps);
    let mut walker = TreeChecker::new(&roots);
    assert_eq!(walker.pending_count(), 1);

    let index = BlobIndex { entries: Vec::new() };
    let root_tree = Tree {
        nodes: vec![dir_node(b"a", Some(id(60))), dir_node(b"b", Some(id(60)))],
    };
    let origin = walker.pop().expect("root pending");
    assert_eq!(origin.id, id(50));
    let diags = walker.check_tree(&origin, &root_tree, &index);
    assert_eq!(diags, Vec::new());
    // the shared subtree was enqueued once
    assert_eq!(walker.pending_count(), 1);

    let sub: PendingTree = walker.pop().expect("subtree pending");
    assert_eq!(sub.id, id(60));
    assert_eq!(sub.path, b"/a".to_vec());
    let diags2 = walker.check_tree(&sub, &Tree { nodes: Vec::new() }, &index);
    assert_eq!(diags2, Vec::new());
    assert_eq!(walker.pending_count(), 0);
    assert!(walker.pop().is_none());
}

#[test]
fn clean_file_node_produces_no_diagnostics() {
    let index = BlobIndex { entries: vec![data_entry(10, 4), data_entry(11, 7)] };
    let tree = Tree { nodes: vec![file_node(b"f", vec![id(10), id(11)])] };
    let mut walker = TreeChecker::new(&vec![id(50)]);
    let origin = walker.pop().expect("root pending");
    assert_eq!(walker.check_tree(&origin, &tree, &index), Vec::new());
}

#[test]
fn index_lookup_finds_data_blobs() {
    let index = BlobIndex { entries: vec![data_entry(10, 4)] };
    assert!(index.has_data(&id(10)));
    assert!(!index.has_data(&id(11)));
    assert_eq!(index.data_length(&id(10)), Some(4));
    assert_eq!(index.data_length(&id(11)), None);
}
