use repofs::index::{BlobIndex, IndexEntry};
use repofs::model::{BlobKind, Error, Id, Metadata, Node, NodeType, Tree, Xattr};
use repofs::vfs::{
    assemble, find_child, get_xattr, list_dir, list_xattrs, node_attributes, readlink, FileKind,
    Vfs, XattrReply,
};

fn id(n: u64) -> Id {
    Id { w0: 0, w1: 0, w2: 0, w3: n }
}

fn meta() -> Metadata {
    Metadata {
        size: 0,
        mode: None,
        uid: None,
        gid: None,
        atime: None,
        mtime: None,
        ctime: None,
        links: None,
        xattrs: Vec::new(),
    }
}

fn node(name: &[u8], node_type: NodeType) -> Node {
    Node { name: name.to_vec(), node_type, meta: meta(), content: Vec::new(), subtree: None }
}

fn data_entry(n: u64, length: u32) -> IndexEntry {
    IndexEntry { id: id(n), kind: BlobKind::Data, pack: id(900), offset: 0, length }
}

fn two_blob_vfs() -> Vfs {
    // a 700-byte file backed by a 400- and a 300-byte blob
    let index = BlobIndex { entries: vec![data_entry(1, 400), data_entry(2, 300)] };
    let root = node(b"", NodeType::Dir);
    let mut root = root;
    root.subtree = Some(id(99));
    Vfs::new(&root, 1_000_000, index).expect("root carries a subtree")
}

fn two_blob_file() -> Node {
    let mut f = node(b"f", NodeType::File);
    f.content = vec![id(1), id(2)];
    f.meta.size = 700;
    f
}

fn blob_bytes(len: usize, start: u8) -> Vec<u8> {
    let mut v = Vec::with_capacity(len);
    for i in 0..len {
        v.push(start.wrapping_add(i as u8));
    }
    v
}

#[test]
fn read_spans_a_blob_boundary() {
    let mut vfs = two_blob_vfs();
    let f = two_blob_file();
    let fh = vfs.open(&f).expect("open regular file");
    let plan = vfs.read_plan(fh, 350, 100).expect("handle is live");
    assert_eq!(plan.len(), 2);
    assert_eq!(plan[0].id, id(1));
    assert_eq!(plan[0].skip, 350);
    assert_eq!(plan[0].take_len, 50);
    assert_eq!(plan[1].id, id(2));
    assert_eq!(plan[1].skip, 0);
    assert_eq!(plan[1].take_len, 50);

    let blob1 = blob_bytes(400, 0);
    let blob2 = blob_bytes(300, 100);
    let fetched = vec![blob1.clone(), blob2.clone()];
    let bytes = assemble(&plan, &fetched).expect("lengths match the index");
    let mut expected = blob1[350..400].to_vec();
    expected.extend_from_slice(&blob2[0..50]);
    assert_eq!(bytes, expected);
    assert_eq!(bytes.len(), 100);
}

#[test]
fn read_inside_one_blob() {
    let mut vfs = two_blob_vfs();
    let f = two_blob_file();
    let fh = vfs.open(&f).expect("open regular file");
    let plan = vfs.read_plan(fh, 10, 20).expect("handle is live");
    assert_eq!(plan.len(), 1);
    assert_eq!(plan[0].id, id(1));
    assert_eq!(plan[0].skip, 10);
    assert_eq!(plan[0].take_len, 20);
    let bytes = assemble(&plan, &vec![blob_bytes(400, 0)]).expect("length matches");
    assert_eq!(bytes, blob_bytes(400, 0)[10..30].to_vec());
}

#[test]
fn read_at_or_past_end_of_file_is_empty() {
    let mut vfs = two_blob_vfs();
    let f = two_blob_file();
    let fh = vfs.open(&f).expect("open regular file");
    let plan = vfs.read_plan(fh, 700, 10).expect("no error at end of file");
    assert_eq!(plan.len(), 0);
    let plan2 = vfs.read_plan(fh, 10_000, 1).expect("no error past end of file");
    assert_eq!(plan2.len(), 0);
    assert_eq!(assemble(&plan, &Vec::new()).expect("empty plan"), Vec::<u8>::new());
}

#[test]
fn read_clipped_at_end_of_file() {
    let mut vfs = two_blob_vfs();
    let f = two_blob_file();
    let fh = vfs.open(&f).expect("open regular file");
    let plan = vfs.read_plan(fh, 690, 100).expect("handle is live");
    assert_eq!(plan.len(), 1);
    assert_eq!(plan[0].id, id(2));
    assert_eq!(plan[0].skip, 290);
    assert_eq!(plan[0].take_len, 10);
}

#[test]
fn read_after_release_is_not_found() {
    let mut vfs = two_blob_vfs();
    let f = two_blob_file();
    let fh = vfs.open(&f).expect("open regular file");
    assert!(vfs.read_plan(fh, 0, 1).is_ok());
    assert_eq!(vfs.release(fh), Ok(()));
    assert_eq!(vfs.read_plan(fh, 0, 1), Err(Error::NotFound));
    assert_eq!(vfs.release(fh), Err(Error::NotFound));
}

#[test]
fn open_reuses_the_smallest_free_handle() {
    let mut vfs = two_blob_vfs();
    let f = two_blob_file();
    let fh0 = vfs.open(&f).expect("first open");
    let fh1 = vfs.open(&f).expect("second open");
    assert_eq!(fh0, 0);
    assert_eq!(fh1, 1);
    assert_eq!(vfs.release(fh0), Ok(()));
    let fh2 = vfs.open(&f).expect("third open");
    assert_eq!(fh2, 0);
}

#[test]
fn open_rejects_non_files_and_unknown_blobs() {
    let mut vfs = two_blob_vfs();
    let d = node(b"d", NodeType::Dir);
    assert_eq!(vfs.open(&d), Err(Error::Unsupported));
    let mut f = node(b"f", NodeType::File);
    f.content = vec![id(1), id(77)];
    assert_eq!(vfs.open(&f), Err(Error::NotFound));
}

#[test]
fn assemble_rejects_contents_of_the_wrong_length() {
    let mut vfs = two_blob_vfs();
    let f = two_blob_file();
    let fh = vfs.open(&f).expect("open regular file");
    let plan = vfs.read_plan(fh, 0, 500).expect("handle is live");
    let wrong = vec![blob_bytes(399, 0), blob_bytes(300, 100)];
    assert_eq!(assemble(&plan, &wrong), Err(Error::FatalIo));
}

#[test]
fn attribute_defaults_are_centralized() {
    let n = node(b"f", NodeType::File);
    let a = node_attributes(&n, 42);
    assert_eq!(a.size, 0);
    assert_eq!(a.blocks, 0);
    assert_eq!(a.atime, 42);
    assert_eq!(a.mtime, 42);
    assert_eq!(a.ctime, 42);
    assert_eq!(a.crtime, 42);
    assert_eq!(a.kind, FileKind::RegularFile);
    assert_eq!(a.perm, 0);
    assert_eq!(a.nlink, 1);
    assert_eq!(a.uid, 0);
    assert_eq!(a.gid, 0);
    assert_eq!(a.rdev, 0);
    assert_eq!(a.flags, 0);
}

#[test]
fn attribute_fields_carry_over_when_present() {
    let mut n = node(b"f", NodeType::Chardev { device: 7 });
    n.meta.size = 123;
    n.meta.mode = Some(0o755);
    n.meta.uid = Some(1000);
    n.meta.gid = Some(100);
    n.meta.atime = Some(11);
    n.meta.mtime = Some(22);
    n.meta.ctime = Some(33);
    n.meta.links = Some(3);
    let a = node_attributes(&n, 42);
    assert_eq!(a.size, 123);
    assert_eq!(a.atime, 11);
    assert_eq!(a.mtime, 22);
    assert_eq!(a.ctime, 33);
    assert_eq!(a.crtime, 42);
    assert_eq!(a.kind, FileKind::CharDevice);
    assert_eq!(a.perm, 0o755);
    assert_eq!(a.nlink, 3);
    assert_eq!(a.uid, 1000);
    assert_eq!(a.gid, 100);
    assert_eq!(a.rdev, 7);
}

#[test]
fn file_kinds_map_one_to_one() {
    assert_eq!(node_attributes(&node(b"x", NodeType::Dir), 0).kind, FileKind::Directory);
    assert_eq!(
        node_attributes(&node(b"x", NodeType::Symlink { target: b"t".to_vec() }), 0).kind,
        FileKind::Symlink
    );
    assert_eq!(
        node_attributes(&node(b"x", NodeType::Dev { device: 1 }), 0).kind,
        FileKind::BlockDevice
    );
    assert_eq!(node_attributes(&node(b"x", NodeType::Fifo), 0).kind, FileKind::NamedPipe);
    assert_eq!(node_attributes(&node(b"x", NodeType::Socket), 0).kind, FileKind::Socket);
}

#[test]
fn readlink_returns_the_target_verbatim() {
    let n = node(b"l", NodeType::Symlink { target: b"/some/where".to_vec() });
    assert_eq!(readlink(&n), Ok(b"/some/where".to_vec()));
    assert_eq!(readlink(&node(b"f", NodeType::File)), Err(Error::Unsupported));
}

#[test]
fn find_child_matches_the_first_name() {
    let tree = Tree {
        nodes: vec![node(b"a", NodeType::File), node(b"b", NodeType::Dir), node(b"b", NodeType::File)],
    };
    assert_eq!(find_child(&tree, &b"b".to_vec()), Ok(1));
    assert_eq!(find_child(&tree, &b"c".to_vec()), Err(Error::NotFound));
}

#[test]
fn list_dir_keeps_the_stored_order() {
    let tree = Tree {
        nodes: vec![node(b"zeta", NodeType::File), node(b"alpha", NodeType::Dir)],
    };
    let entries = list_dir(&tree);
    assert_eq!(entries.len(), 2);
    assert_eq!(entries[0].name, b"zeta".to_vec());
    assert_eq!(entries[0].kind, FileKind::RegularFile);
    assert_eq!(entries[1].name, b"alpha".to_vec());
    assert_eq!(entries[1].kind, FileKind::Directory);
}

#[test]
fn xattr_listing_null_terminates_each_name() {
    let mut n = node(b"f", NodeType::File);
    n.meta.xattrs = vec![
        Xattr { name: b"user.a".to_vec(), value: vec![1] },
        Xattr { name: b"user.b".to_vec(), value: vec![2, 3] },
    ];
    match list_xattrs(&n, 0) {
        XattrReply::Size(total) => assert_eq!(total, 14),
        XattrReply::Data(_) => panic!("size probe expected a size"),
    }
    match list_xattrs(&n, 64) {
        XattrReply::Data(bytes) => assert_eq!(bytes, b"user.a\0user.b\0".to_vec()),
        XattrReply::Size(_) => panic!("data expected"),
    }
}

#[test]
fn get_xattr_returns_the_value_or_not_found() {
    let mut n = node(b"f", NodeType::File);
    n.meta.xattrs = vec![Xattr { name: b"user.a".to_vec(), value: vec![9, 8, 7] }];
    match get_xattr(&n, &b"user.a".to_vec(), 0) {
        Ok(XattrReply::Size(len)) => assert_eq!(len, 3),
        _ => panic!("size probe expected a size"),
    }
    match get_xattr(&n, &b"user.a".to_vec(), 16) {
        Ok(XattrReply::Data(v)) => assert_eq!(v, vec![9, 8, 7]),
        _ => panic!("data expected"),
    }
    assert!(matches!(get_xattr(&n, &b"user.x".to_vec(), 16), Err(Error::NotFound)));
}

#[test]
fn vfs_new_needs_a_subtree() {
    let index = BlobIndex { entries: Vec::new() };
    let n = node(b"", NodeType::Dir);
    assert!(matches!(Vfs::new(&n, 0, index), Err(Error::Unsupported)));
}
