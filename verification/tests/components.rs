use memtree::cache_chunks::{PointersIter, chunk_bytes, concat_chunks};
use memtree::codec::{EntryKind, ManifestEntry, hash_to_hex, parse_listing, serialize_listing};
use memtree::decompressor::DecompressorType;
use memtree::errors::ErrorKind;
use memtree::filenodes::{IncompleteFilenodeInfo, IncompleteFilenodes};
use memtree::manifest_utils::{
    ChangedEntry, EntryStatus, RevlogEntry, RevlogManifest, changed_entry_stream,
    diff_sorted_vecs, new_entry_intersection_stream, recursive_entry_stream,
};
use memtree::path::{MPath, MPathElement, RepoPath, extend_repopath_with_dir};
use memtree::store::{Blobstore, MemBlobstore};
use memtree::uniqueheap::UniqueHeap;

fn elem(name: &[u8]) -> MPathElement {
    MPathElement::new(name.to_vec()).expect("valid path element")
}

#[test]
fn hex_rendering_is_fixed_width_lowercase() {
    assert_eq!(hash_to_hex(0), b"0000000000000000".to_vec());
    assert_eq!(hash_to_hex(0x12ab), b"00000000000012ab".to_vec());
    assert_eq!(hash_to_hex(u64::MAX), b"ffffffffffffffff".to_vec());
}

#[test]
fn listing_round_trip() {
    let entries = vec![
        ManifestEntry { name: elem(b"alpha"), hash: 7, kind: EntryKind::File },
        ManifestEntry { name: elem(b"beta"), hash: 8, kind: EntryKind::Executable },
        ManifestEntry { name: elem(b"gamma"), hash: 9, kind: EntryKind::Tree },
    ];
    let bytes = serialize_listing(&entries);
    // name NUL hex type newline, entries in order.
    let mut expected = Vec::new();
    expected.extend_from_slice(b"alpha\x000000000000000007f\n");
    expected.extend_from_slice(b"beta\x000000000000000008x\n");
    expected.extend_from_slice(b"gamma\x000000000000000009t\n");
    assert_eq!(bytes, expected);
    let parsed = parse_listing(&bytes).expect("canonical bytes parse");
    assert_eq!(parsed.len(), 3);
    assert_eq!(parsed[0].name.bytes, b"alpha".to_vec());
    assert_eq!(parsed[0].hash, 7);
    assert_eq!(parsed[0].kind, EntryKind::File);
    assert_eq!(parsed[2].kind, EntryKind::Tree);
}

#[test]
fn listing_rejects_garbage() {
    assert!(parse_listing(&b"no-nul-here\n".to_vec()).is_none());
    assert!(parse_listing(&b"\x00empty-name".to_vec()).is_none());
    assert!(parse_listing(&b"name\x00zzzz000000000007f\n".to_vec()).is_none());
    assert!(parse_listing(&b"name\x000000000000000007q\n".to_vec()).is_none());
}

#[test]
fn paths_parse_and_split() {
    let p = MPath::new(&b"a/b/c".to_vec()).expect("valid path");
    assert_eq!(p.elems.len(), 3);
    let (dir, base) = p.split_dirname();
    assert_eq!(base.bytes, b"c".to_vec());
    assert_eq!(dir.expect("has dir part").elems.len(), 2);

    assert!(MPath::new(&b"".to_vec()).is_err());
    assert!(MPath::new(&b"/x".to_vec()).is_err());
    assert!(MPath::new(&b"x/".to_vec()).is_err());
    assert!(MPath::new(&b"a//b".to_vec()).is_err());
    assert!(MPath::new(&b"a\x00b".to_vec()).is_err());
    assert!(MPath::new(&b"a\nb".to_vec()).is_err());
    assert!(MPathElement::new(b"a/b".to_vec()).is_err());
}

#[test]
fn repo_paths_extend() {
    let root = RepoPath::root();
    let d1 = extend_repopath_with_dir(&root, &elem(b"x"));
    match &d1 {
        RepoPath::DirectoryPath(p) => assert_eq!(p.elems.len(), 1),
        _ => panic!("expected a directory path"),
    }
    let d2 = extend_repopath_with_dir(&d1, &elem(b"y"));
    match &d2 {
        RepoPath::DirectoryPath(p) => {
            assert_eq!(p.elems.len(), 2);
            assert_eq!(p.elems[1].bytes, b"y".to_vec());
        }
        _ => panic!("expected a directory path"),
    }
}

#[test]
fn store_deduplicates_content() {
    let mut store = MemBlobstore::new();
    let entries = vec![ManifestEntry { name: elem(b"f"), hash: 1, kind: EntryKind::File }];
    let bytes = serialize_listing(&entries);
    let h1 = store.put(bytes.clone()).expect("first put");
    let h2 = store.put(bytes.clone()).expect("second put");
    assert_eq!(h1, h2, "same bytes must get the same hash");
    assert_eq!(store.get(h1), Some(bytes));
    assert_eq!(store.get(h1 + 1000), None);
}

#[test]
fn unique_heap_orders_and_deduplicates() {
    let mut heap = UniqueHeap::new();
    heap.push(5);
    heap.push(1);
    heap.push(9);
    heap.push(5);
    heap.push(1);
    assert_eq!(heap.pop(), Some(9));
    assert_eq!(heap.pop(), Some(5));
    assert_eq!(heap.pop(), Some(1));
    assert_eq!(heap.pop(), None);
}

#[test]
fn chunks_cover_bytes_exactly() {
    let data: Vec<u8> = (0u8..=250u8).collect();
    let chunks = chunk_bytes(&data, 100);
    assert_eq!(chunks.len(), 3);
    assert_eq!(chunks[0].len(), 100);
    assert_eq!(chunks[1].len(), 100);
    assert_eq!(chunks[2].len(), 51);
    assert_eq!(concat_chunks(&chunks), data);
}

#[test]
fn pointers_are_unique() {
    let mut iter = PointersIter::new();
    let mut seen = Vec::new();
    let mut drawn = 0;
    while drawn < 10 {
        if let Some(p) = iter.next_pointer() {
            assert!(!seen.contains(&p), "pointer handed out twice");
            seen.push(p);
            drawn += 1;
        }
    }
}

#[test]
fn filenode_gets_linknode() {
    let info = IncompleteFilenodeInfo {
        path: RepoPath::FilePath(MPath::new(&b"f".to_vec()).unwrap()),
        filenode: 10,
        p1: Some(4),
        p2: None,
        copyfrom: None,
    };
    let full = info.with_linknode(77);
    assert_eq!(full.filenode, 10);
    assert_eq!(full.p1, Some(4));
    assert_eq!(full.linknode, 77);

    let mut pending = IncompleteFilenodes::new();
    pending.add(IncompleteFilenodeInfo {
        path: RepoPath::FilePath(MPath::new(&b"g".to_vec()).unwrap()),
        filenode: 11,
        p1: None,
        p2: None,
        copyfrom: None,
    });
    let drained = pending.drain_with_linknode(88);
    assert_eq!(drained.len(), 1);
    assert_eq!(drained[0].filenode, 11);
    assert_eq!(drained[0].linknode, 88);
    assert_eq!(pending.drain_with_linknode(88).len(), 0);
}

fn rentry(name: &[u8], hash: u64, kind: EntryKind) -> RevlogEntry {
    RevlogEntry { name: Some(elem(name)), hash, kind, children: Vec::new() }
}

#[test]
fn diff_finds_additions_deletions_and_changes() {
    let left = vec![
        rentry(b"added", 1, EntryKind::File),
        rentry(b"changed", 2, EntryKind::File),
        rentry(b"same", 3, EntryKind::File),
    ];
    let right = vec![
        rentry(b"changed", 20, EntryKind::File),
        rentry(b"gone", 4, EntryKind::File),
        rentry(b"same", 3, EntryKind::File),
    ];
    let diff = diff_sorted_vecs(None, left, right);
    assert_eq!(diff.len(), 3);
    match &diff[0] {
        ChangedEntry { status: EntryStatus::Added(e), .. } => {
            assert_eq!(e.name.as_ref().unwrap().bytes, b"added".to_vec())
        }
        _ => panic!("expected an addition first"),
    }
    match &diff[1] {
        ChangedEntry { status: EntryStatus::Modified(l, r), .. } => {
            assert_eq!(l.hash, 2);
            assert_eq!(r.hash, 20);
        }
        _ => panic!("expected a modification second"),
    }
    match &diff[2] {
        ChangedEntry { status: EntryStatus::Deleted(e), .. } => {
            assert_eq!(e.name.as_ref().unwrap().bytes, b"gone".to_vec())
        }
        _ => panic!("expected a deletion third"),
    }
}

#[test]
fn diff_splits_type_change() {
    let left = vec![rentry(b"x", 1, EntryKind::Tree)];
    let right = vec![rentry(b"x", 1, EntryKind::File)];
    let diff = diff_sorted_vecs(None, left, right);
    assert_eq!(diff.len(), 2);
    assert!(matches!(diff[0].status, EntryStatus::Added(_)));
    assert!(matches!(diff[1].status, EntryStatus::Deleted(_)));
}

#[test]
fn error_descriptions_are_stable() {
    assert_eq!(ErrorKind::NotADirectory.describe(), "not a directory");
    assert_eq!(ErrorKind::UnresolvedConflicts.describe(), "unresolved conflicts");
}

#[test]
fn decompressor_types_describe_themselves() {
    assert_eq!(DecompressorType::Bzip2.describe(), "bzip2");
    assert_eq!(DecompressorType::Gzip.describe(), "gzip");
    assert_eq!(DecompressorType::Zstd.describe(), "zstd");
}

fn tree_entry(name: &[u8], hash: u64, children: Vec<RevlogEntry>) -> RevlogEntry {
    RevlogEntry { name: Some(elem(name)), hash, kind: EntryKind::Tree, children }
}

#[test]
fn recursive_stream_lists_subtrees() {
    let tree = tree_entry(
        b"top",
        1,
        vec![
            rentry(b"file_a", 2, EntryKind::File),
            tree_entry(b"sub", 3, vec![rentry(b"file_b", 4, EntryKind::File)]),
        ],
    );
    let stream = recursive_entry_stream(None, tree);
    assert_eq!(stream.len(), 4);
    // The entry itself comes first, then its descendants with their paths.
    assert!(stream[0].0.is_none());
    assert_eq!(stream[0].1.hash, 1);
    assert_eq!(stream[1].0.as_ref().unwrap().elems.len(), 1);
    assert_eq!(stream[1].1.hash, 2);
    assert_eq!(stream[2].1.hash, 3);
    let deep_path = stream[3].0.as_ref().unwrap();
    assert_eq!(deep_path.elems.len(), 2);
    assert_eq!(deep_path.elems[1].bytes, b"sub".to_vec());
    assert_eq!(stream[3].1.hash, 4);
}

#[test]
fn changed_stream_recurses_into_modified_trees() {
    let to = RevlogManifest {
        entries: vec![tree_entry(b"d", 1, vec![rentry(b"f", 10, EntryKind::File)])],
    };
    let from = RevlogManifest {
        entries: vec![tree_entry(b"d", 2, vec![rentry(b"f", 20, EntryKind::File)])],
    };
    let stream = changed_entry_stream(&to, &from, None);
    assert_eq!(stream.len(), 2);
    match &stream[0].status {
        EntryStatus::Modified(l, r) => {
            assert_eq!(l.hash, 1);
            assert_eq!(r.hash, 2);
        }
        _ => panic!("expected the tree itself first"),
    }
    match &stream[1].status {
        EntryStatus::Modified(l, r) => {
            assert_eq!(l.hash, 10);
            assert_eq!(r.hash, 20);
            assert_eq!(stream[1].path.as_ref().unwrap().elems[0].bytes, b"d".to_vec());
        }
        _ => panic!("expected the inner file change second"),
    }
}

#[test]
fn new_entry_intersection_keeps_common_additions() {
    let root = RevlogManifest {
        entries: vec![
            rentry(b"both", 1, EntryKind::File),
            rentry(b"only_vs_p1", 2, EntryKind::File),
        ],
    };
    let p1 = RevlogManifest { entries: vec![] };
    let p2 = RevlogManifest { entries: vec![rentry(b"only_vs_p1", 2, EntryKind::File)] };
    // New entries are matched by the directory they sit in: both additions
    // live in the root directory, where p2's comparison also finds news, so
    // both survive the intersection.
    let stream = new_entry_intersection_stream(&root, Some(&p1), Some(&p2));
    assert_eq!(stream.len(), 2);
    // Against a parent identical to the root nothing is new, so the
    // intersection is empty.
    let same = RevlogManifest {
        entries: vec![
            rentry(b"both", 1, EntryKind::File),
            rentry(b"only_vs_p1", 2, EntryKind::File),
        ],
    };
    let stream = new_entry_intersection_stream(&root, Some(&p1), Some(&same));
    assert_eq!(stream.len(), 0);
    // Against a single parent, everything new to it is listed.
    let stream = new_entry_intersection_stream(&root, Some(&p2), None);
    assert_eq!(stream.len(), 1);
    assert_eq!(stream[0].1.hash, 1);
    let stream = new_entry_intersection_stream(&root, None, None);
    assert_eq!(stream.len(), 2);
}
