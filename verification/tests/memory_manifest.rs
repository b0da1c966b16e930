use memtree::codec::{EntryKind, ManifestEntry, parse_listing, serialize_listing};
use memtree::errors::ErrorKind;
use memtree::memory_manifest::{
    ChangeMap, HgBlobEntry, MemoryManifestEntry, MemoryRootManifest,
};
use memtree::path::{MPath, MPathElement, RepoPath};
use memtree::store::{Blobstore, MemBlobstore};

fn elem(name: &[u8]) -> MPathElement {
    MPathElement::new(name.to_vec()).expect("valid path element")
}

fn path(bytes: &[u8]) -> MPath {
    MPath::new(&bytes.to_vec()).expect("valid path")
}

fn put_listing(store: &mut MemBlobstore, entries: Vec<ManifestEntry>) -> u64 {
    let bytes = serialize_listing(&entries);
    store.put(bytes).expect("store accepts listing")
}

/// Seed a store with a root manifest holding `1`, `2`, `dir1/file_1` and
/// `dir2/file_1_in_dir2`; returns the root and dir2 hashes.
fn fixture(store: &mut MemBlobstore) -> (u64, u64) {
    let dir1 = put_listing(
        store,
        vec![ManifestEntry { name: elem(b"file_1"), hash: 101, kind: EntryKind::File }],
    );
    let dir2 = put_listing(
        store,
        vec![ManifestEntry { name: elem(b"file_1_in_dir2"), hash: 102, kind: EntryKind::File }],
    );
    let root = put_listing(
        store,
        vec![
            ManifestEntry { name: elem(b"1"), hash: 103, kind: EntryKind::File },
            ManifestEntry { name: elem(b"2"), hash: 104, kind: EntryKind::File },
            ManifestEntry { name: elem(b"dir1"), hash: dir1, kind: EntryKind::Tree },
            ManifestEntry { name: elem(b"dir2"), hash: dir2, kind: EntryKind::Tree },
        ],
    );
    (root, dir2)
}

fn insert_entry(tree: &mut MemoryManifestEntry, path: MPathElement, entry: MemoryManifestEntry) {
    match tree {
        MemoryManifestEntry::MemTree { changes, .. } => {
            changes.insert(path, Some(entry));
        }
        _ => panic!("Inserting into a non-Tree"),
    }
}

#[test]
fn empty_manifest() {
    let blobstore = MemBlobstore::new();
    // Create an empty memory manifest.
    let memory_manifest =
        MemoryRootManifest::new(blobstore, None, None).expect("Could not create empty manifest");

    if let MemoryManifestEntry::MemTree { base_manifest_id, p1, p2, changes } =
        memory_manifest.root_entry
    {
        assert!(base_manifest_id.is_none(), "Empty manifest had a baseline");
        assert!(p1.is_none(), "Empty manifest had p1");
        assert!(p2.is_none(), "Empty manifest had p2");
        assert!(changes.entries.is_empty(), "Empty manifest had new entries changed");
    } else {
        panic!("Empty manifest is not a MemTree");
    }
}

#[test]
fn load_manifest() {
    let mut store = MemBlobstore::new();
    let (manifest_id, _) = fixture(&mut store);

    // Load a memory manifest.
    let memory_manifest = MemoryRootManifest::new(store, Some(manifest_id), None)
        .expect("Could not load manifest");

    if let MemoryManifestEntry::MemTree { base_manifest_id, p1, p2, changes } =
        memory_manifest.root_entry
    {
        assert_eq!(
            base_manifest_id,
            Some(manifest_id),
            "Loaded manifest had wrong base {:?}",
            base_manifest_id
        );
        assert_eq!(p1, Some(manifest_id), "Loaded manifest had wrong p1 {:?}", p1);
        assert!(p2.is_none(), "Loaded manifest had p2");
        assert!(changes.entries.is_empty(), "Loaded (unaltered) manifest has had entries changed");
    } else {
        panic!("Loaded manifest is not a MemTree");
    }
}

#[test]
fn save_manifest() {
    let mut store = MemBlobstore::new();
    let (dir_nodehash, _) = fixture(&mut store);

    // Create an empty memory manifest.
    let mut memory_manifest =
        MemoryRootManifest::new(store, None, None).expect("Could not create empty manifest");

    // Add an unmodified entry pointing at an existing tree.
    let dir = MemoryManifestEntry::MemTree {
        base_manifest_id: Some(dir_nodehash),
        p1: Some(dir_nodehash),
        p2: None,
        changes: ChangeMap::new(),
    };
    let path = elem(b"dir");
    insert_entry(&mut memory_manifest.root_entry, path.clone(), dir);

    let manifest_id = memory_manifest.save().expect("Could not save manifest");

    let bytes = memory_manifest
        .blobstore
        .get(manifest_id.hash)
        .expect("Lookup of entry just saved failed");
    let listing = parse_listing(&bytes).expect("saved bytes decode");
    let refound = listing
        .iter()
        .find(|e| e.name.bytes == path.bytes)
        .expect("Just saved entry not present");

    // Confirm that the entry we put in the root manifest is present.
    assert_eq!(refound.hash, dir_nodehash, "directory hash changed");
}

#[test]
fn remove_item() {
    let mut store = MemBlobstore::new();
    let (manifest_id, _) = fixture(&mut store);

    let dir2 = elem(b"dir2");

    // Load a memory manifest.
    let mut memory_manifest = MemoryRootManifest::new(store, Some(manifest_id), None)
        .expect("Could not load manifest");

    if !memory_manifest.root_entry.is_dir() {
        panic!("Loaded manifest is not a MemTree");
    }

    // Remove a file.
    memory_manifest
        .change_entry(&path(b"dir2/file_1_in_dir2"), None)
        .expect("Failed to remove");

    // Assert that dir2 is now empty, since we've removed the item.
    {
        let dir2_entry = match &memory_manifest.root_entry {
            MemoryManifestEntry::MemTree { changes, .. } => {
                let mut found = None;
                for (name, value) in &changes.entries {
                    if name.bytes == dir2.bytes {
                        found = Some(value.clone().expect("dir2 is missing"));
                    }
                }
                found.expect("dir2 is missing")
            }
            _ => panic!("Loaded manifest is not a MemTree"),
        };
        assert!(
            dir2_entry
                .is_empty(&mut memory_manifest.blobstore)
                .expect("is_empty failed"),
            "Bad after remove"
        );
        if let MemoryManifestEntry::MemTree { changes, .. } = &dir2_entry {
            assert!(!changes.entries.is_empty(), "dir2 has no change entries");
            assert!(
                changes.entries.iter().all(|(_, v)| v.is_none()),
                "dir2 has some add entries"
            );
        }
    }

    // And check that dir2 disappears over a save/reload operation.
    let manifest_entry = memory_manifest.save().expect("Could not save manifest");

    let bytes = memory_manifest
        .blobstore
        .get(manifest_entry.hash)
        .expect("Lookup of entry just saved failed");
    let listing = parse_listing(&bytes).expect("saved bytes decode");
    let refound = listing.iter().find(|e| e.name.bytes == dir2.bytes);

    assert!(refound.is_none(), "Found dir2 when we should have deleted it on save");
}

#[test]
fn add_item() {
    let mut store = MemBlobstore::new();
    let (manifest_id, _) = fixture(&mut store);

    let new_file = elem(b"new_file");

    // Load a memory manifest.
    let mut memory_manifest = MemoryRootManifest::new(store, Some(manifest_id), None)
        .expect("Could not load manifest");

    // Add a file.
    let nodehash = 900u64;
    memory_manifest
        .change_entry(
            &path(b"new_file"),
            Some(HgBlobEntry::new(new_file.clone(), nodehash, EntryKind::File)),
        )
        .expect("Failed to set");

    // And check that new_file persists.
    let manifest_entry = memory_manifest.save().expect("Could not save manifest");

    let bytes = memory_manifest
        .blobstore
        .get(manifest_entry.hash)
        .expect("Lookup of entry just saved failed");
    let listing = parse_listing(&bytes).expect("saved bytes decode");
    let refound = listing
        .iter()
        .find(|e| e.name.bytes == new_file.bytes)
        .expect("new_file did not persist");
    assert_eq!(refound.hash, nodehash, "nodehash hash changed");
}

#[test]
fn replace_item() {
    let mut store = MemBlobstore::new();
    let (manifest_id, _) = fixture(&mut store);

    let new_file = elem(b"1");

    // Load a memory manifest.
    let mut memory_manifest = MemoryRootManifest::new(store, Some(manifest_id), None)
        .expect("Could not load manifest");

    // Replace a file.
    let nodehash = 901u64;
    memory_manifest
        .change_entry(
            &path(b"1"),
            Some(HgBlobEntry::new(new_file.clone(), nodehash, EntryKind::File)),
        )
        .expect("Failed to set");

    // And check that the replacement persists.
    let manifest_entry = memory_manifest.save().expect("Could not save manifest");

    let bytes = memory_manifest
        .blobstore
        .get(manifest_entry.hash)
        .expect("Lookup of entry just saved failed");
    let listing = parse_listing(&bytes).expect("saved bytes decode");
    let refound = listing
        .iter()
        .find(|e| e.name.bytes == new_file.bytes)
        .expect("1 did not persist");
    assert_eq!(refound.hash, nodehash, "nodehash hash changed");
}

const ONES_HASH: u64 = 1;
const TWOS_HASH: u64 = 2;

fn blob_entry(name: &[u8], hash: u64) -> MemoryManifestEntry {
    MemoryManifestEntry::Blob(HgBlobEntry::new(elem(name), hash, EntryKind::File))
}

#[test]
fn merge_manifests() {
    let mut store = MemBlobstore::new();

    let base = {
        let mut changes = ChangeMap::new();
        changes.insert(elem(b"shared"), Some(blob_entry(b"shared", ONES_HASH)));
        changes.insert(elem(b"base"), Some(blob_entry(b"base", ONES_HASH)));
        changes.insert(elem(b"conflict"), Some(blob_entry(b"conflict", ONES_HASH)));
        MemoryManifestEntry::MemTree {
            base_manifest_id: None,
            p1: Some(ONES_HASH),
            p2: None,
            changes,
        }
    };

    let other = {
        let mut changes = ChangeMap::new();
        changes.insert(elem(b"shared"), Some(blob_entry(b"shared", ONES_HASH)));
        changes.insert(elem(b"other"), Some(blob_entry(b"other", TWOS_HASH)));
        changes.insert(elem(b"conflict"), Some(blob_entry(b"conflict", TWOS_HASH)));
        MemoryManifestEntry::MemTree {
            base_manifest_id: None,
            p1: Some(TWOS_HASH),
            p2: None,
            changes,
        }
    };

    let merged = base
        .merge_with_conflicts(&other, &mut store, &RepoPath::RootPath)
        .expect("merge failed");

    if let MemoryManifestEntry::MemTree { changes, .. } = merged {
        assert_eq!(changes.entries.len(), 4, "Should merge to 4 entries");
        let find = |name: &[u8]| -> &Option<MemoryManifestEntry> {
            &changes
                .entries
                .iter()
                .find(|(n, _)| n.bytes == name.to_vec())
                .expect("entry missing")
                .1
        };
        match find(b"shared") {
            Some(MemoryManifestEntry::Blob(blob)) => {
                assert_eq!(blob.hash, ONES_HASH, "Wrong hash for shared");
            }
            _ => panic!("shared is not a blob"),
        }
        match find(b"base") {
            Some(MemoryManifestEntry::Blob(blob)) => {
                assert_eq!(blob.hash, ONES_HASH, "Wrong hash for base");
            }
            _ => panic!("base is not a blob"),
        }
        match find(b"other") {
            Some(MemoryManifestEntry::Blob(blob)) => {
                assert_eq!(blob.hash, TWOS_HASH, "Wrong hash for other");
            }
            _ => panic!("other is not a blob"),
        }
        match find(b"conflict") {
            Some(MemoryManifestEntry::Conflict(conflicts)) => {
                assert_eq!(conflicts.len(), 2, "Should have two conflicts");
            }
            _ => panic!("conflict did not create a conflict"),
        }
    } else {
        panic!("Merge failed to produce a merged tree");
    }
}

#[test]
fn round_trip_unmodified_save() {
    // Saving an unmodified node loaded from a baseline yields that very
    // hash again, with no store write.
    let mut store = MemBlobstore::new();
    let (manifest_id, _) = fixture(&mut store);

    let mut mm =
        MemoryRootManifest::new(store, Some(manifest_id), None).expect("Could not load manifest");
    let saved = mm.save().expect("Could not save manifest");
    assert_eq!(saved.hash, manifest_id, "unmodified save must return the baseline hash");
    assert_eq!(saved.kind, EntryKind::Tree);
    // Saving again is still the same reference.
    let saved2 = mm.save().expect("second save failed");
    assert_eq!(saved2.hash, manifest_id);
}

#[test]
fn save_twice_same_hash() {
    // Saving the same modified content twice yields the same hash both
    // times: the store is content-addressed.
    let mut store = MemBlobstore::new();
    let (manifest_id, _) = fixture(&mut store);

    let mut mm =
        MemoryRootManifest::new(store, Some(manifest_id), None).expect("Could not load manifest");
    mm.change_entry(
        &path(b"extra"),
        Some(HgBlobEntry::new(elem(b"extra"), 77, EntryKind::File)),
    )
    .expect("Failed to set");
    let first = mm.save().expect("first save failed");
    let second = mm.save().expect("second save failed");
    assert_eq!(first.hash, second.hash, "identical content must hash identically");
}

#[test]
fn merge_identity() {
    // Merging a node with itself (same baseline, unmodified, both sides)
    // yields that same node.
    let mut store = MemBlobstore::new();
    let (manifest_id, _) = fixture(&mut store);

    let a = MemoryManifestEntry::convert_treenode(manifest_id);
    let b = MemoryManifestEntry::convert_treenode(manifest_id);
    let merged = a
        .merge_with_conflicts(&b, &mut store, &RepoPath::RootPath)
        .expect("identity merge failed");
    match merged {
        MemoryManifestEntry::MemTree { base_manifest_id, p1, p2, changes } => {
            assert_eq!(base_manifest_id, Some(manifest_id));
            assert_eq!(p1, Some(manifest_id));
            assert!(p2.is_none());
            assert!(changes.entries.is_empty());
        }
        _ => panic!("identity merge changed the node shape"),
    }
}

#[test]
fn conflict_ordering() {
    // Merging leaf A with leaf B keeps [A, B]; merging B with A keeps
    // [B, A].
    let mut store = MemBlobstore::new();
    let a = blob_entry(b"f", 11);
    let b = blob_entry(b"f", 22);

    let ab = a
        .merge_with_conflicts(&b, &mut store, &RepoPath::RootPath)
        .expect("merge failed");
    match ab {
        MemoryManifestEntry::Conflict(entries) => {
            assert_eq!(entries.len(), 2);
            match (&entries[0], &entries[1]) {
                (MemoryManifestEntry::Blob(x), MemoryManifestEntry::Blob(y)) => {
                    assert_eq!(x.hash, 11);
                    assert_eq!(y.hash, 22);
                }
                _ => panic!("conflict entries are not blobs"),
            }
        }
        _ => panic!("expected a conflict"),
    }

    let ba = b
        .merge_with_conflicts(&a, &mut store, &RepoPath::RootPath)
        .expect("merge failed");
    match ba {
        MemoryManifestEntry::Conflict(entries) => {
            assert_eq!(entries.len(), 2);
            match (&entries[0], &entries[1]) {
                (MemoryManifestEntry::Blob(x), MemoryManifestEntry::Blob(y)) => {
                    assert_eq!(x.hash, 22);
                    assert_eq!(y.hash, 11);
                }
                _ => panic!("conflict entries are not blobs"),
            }
        }
        _ => panic!("expected a conflict"),
    }
}

#[test]
fn partial_save_under_conflict() {
    // A tree with one conflicted subtree and one clean subtree: saving the
    // whole tree fails, saving the clean subtree alone succeeds.
    let mut store = MemBlobstore::new();

    let clean_subtree = {
        let mut changes = ChangeMap::new();
        changes.insert(elem(b"file_ok"), Some(blob_entry(b"file_ok", 31)));
        MemoryManifestEntry::MemTree { base_manifest_id: None, p1: None, p2: None, changes }
    };
    let conflicted_subtree = {
        let mut changes = ChangeMap::new();
        changes.insert(
            elem(b"clash"),
            Some(MemoryManifestEntry::Conflict(vec![
                blob_entry(b"clash", 41),
                blob_entry(b"clash", 42),
            ])),
        );
        MemoryManifestEntry::MemTree { base_manifest_id: None, p1: None, p2: None, changes }
    };

    let mut root_changes = ChangeMap::new();
    root_changes.insert(elem(b"good"), Some(clean_subtree.clone()));
    root_changes.insert(elem(b"bad"), Some(conflicted_subtree));
    let root = MemoryManifestEntry::MemTree {
        base_manifest_id: None,
        p1: None,
        p2: None,
        changes: root_changes,
    };

    let whole = root.save(&mut store, &RepoPath::RootPath);
    assert!(matches!(whole, Err(ErrorKind::UnresolvedConflicts)));

    let sub = clean_subtree
        .save(&mut store, &RepoPath::RootPath)
        .expect("clean subtree must save");
    assert_eq!(sub.kind, EntryKind::Tree);
    assert!(store.get(sub.hash).is_some(), "saved subtree must resolve");
}

#[test]
fn deletion_collapses_empty_tree() {
    // Baseline tree has dir/file. Removing dir/file and saving produces a
    // root whose reload shows dir absent entirely.
    let mut store = MemBlobstore::new();
    let dir = put_listing(
        &mut store,
        vec![ManifestEntry { name: elem(b"file"), hash: 601, kind: EntryKind::File }],
    );
    let root = put_listing(
        &mut store,
        vec![
            ManifestEntry { name: elem(b"dir"), hash: dir, kind: EntryKind::Tree },
            ManifestEntry { name: elem(b"keep"), hash: 602, kind: EntryKind::File },
        ],
    );

    let mut mm = MemoryRootManifest::new(store, Some(root), None).expect("load failed");
    mm.change_entry(&path(b"dir/file"), None).expect("remove failed");
    let saved = mm.save().expect("save failed");

    let bytes = mm.blobstore.get(saved.hash).expect("saved root must resolve");
    let listing = parse_listing(&bytes).expect("saved bytes decode");
    assert!(
        listing.iter().find(|e| e.name.bytes == b"dir".to_vec()).is_none(),
        "dir must be gone entirely"
    );
    assert!(
        listing.iter().find(|e| e.name.bytes == b"keep".to_vec()).is_some(),
        "untouched entries must survive"
    );
}

#[test]
fn lazy_lookup_scope() {
    // Changing one file several levels deep must not load sibling
    // subtrees; the store read counter observes exactly the path loads.
    let mut store = MemBlobstore::new();
    let deep = put_listing(
        &mut store,
        vec![ManifestEntry { name: elem(b"leaf"), hash: 701, kind: EntryKind::File }],
    );
    let dir_a = put_listing(
        &mut store,
        vec![ManifestEntry { name: elem(b"deep"), hash: deep, kind: EntryKind::Tree }],
    );
    let sibling = put_listing(
        &mut store,
        vec![ManifestEntry { name: elem(b"other"), hash: 702, kind: EntryKind::File }],
    );
    let root = put_listing(
        &mut store,
        vec![
            ManifestEntry { name: elem(b"dir_a"), hash: dir_a, kind: EntryKind::Tree },
            ManifestEntry { name: elem(b"dir_b"), hash: sibling, kind: EntryKind::Tree },
        ],
    );

    let mut mm = MemoryRootManifest::new(store, Some(root), None).expect("load failed");
    let before = mm.blobstore.read_count();
    mm.change_entry(
        &path(b"dir_a/deep/new"),
        Some(HgBlobEntry::new(elem(b"new"), 703, EntryKind::File)),
    )
    .expect("change failed");
    let after = mm.blobstore.read_count();
    // One read per path level walked: the root listing and dir_a's listing.
    assert_eq!(after - before, 2, "only the listings along the path may be read");
}

#[test]
fn merge_independent_additions() {
    // Two roots built from different baselines, each adding a distinct
    // top-level file, merge into a node holding both with no conflicts.
    let mut store = MemBlobstore::new();
    let shared = put_listing(
        &mut store,
        vec![ManifestEntry { name: elem(b"common"), hash: 801, kind: EntryKind::File }],
    );
    let p1_base = put_listing(
        &mut store,
        vec![
            ManifestEntry { name: elem(b"common"), hash: 801, kind: EntryKind::File },
            ManifestEntry { name: elem(b"p1_only"), hash: 802, kind: EntryKind::File },
        ],
    );
    let _ = shared;
    let p2_base = put_listing(
        &mut store,
        vec![ManifestEntry { name: elem(b"common"), hash: 801, kind: EntryKind::File }],
    );

    let mut mm1 = MemoryRootManifest::new(store, Some(p1_base), None).expect("load p1");
    mm1.change_entry(&path(b"a"), Some(HgBlobEntry::new(elem(b"a"), 811, EntryKind::File)))
        .expect("add a");
    let saved1 = mm1.save().expect("save p1 side");

    let mut store = mm1.blobstore;
    let mut mm2 = MemoryRootManifest::new(store, Some(p2_base), None).expect("load p2");
    mm2.change_entry(&path(b"b"), Some(HgBlobEntry::new(elem(b"b"), 812, EntryKind::File)))
        .expect("add b");

    let left = MemoryManifestEntry::convert_treenode(saved1.hash);
    let right = mm2.root_entry.clone();
    store = mm2.blobstore;
    let merged = left
        .merge_with_conflicts(&right, &mut store, &RepoPath::RootPath)
        .expect("merge failed");

    let kids = merged.get_new_children(&mut store).expect("materialize merged children");
    let mut saw_a = false;
    let mut saw_b = false;
    for i in 0..kids.len() {
        let (name, child) = kids.get_at(i);
        assert!(
            !matches!(child, MemoryManifestEntry::Conflict(_)),
            "no conflicts expected in this merge"
        );
        if name.bytes == b"a".to_vec() {
            saw_a = true;
        }
        if name.bytes == b"b".to_vec() {
            saw_b = true;
        }
    }
    assert!(saw_a && saw_b, "merged children must include both additions");
}

#[test]
fn missing_baseline_is_reported() {
    let mut store = MemBlobstore::new();
    let (real_root, _) = fixture(&mut store);
    let dangling = real_root + 500;

    let mut mm = MemoryRootManifest::new(store, Some(dangling), None).expect("constructing is lazy");
    // The first operation that needs the listing surfaces the missing hash.
    let r = mm.change_entry(
        &path(b"dir/file"),
        Some(HgBlobEntry::new(elem(b"file"), 1, EntryKind::File)),
    );
    assert!(matches!(r, Err(ErrorKind::ManifestMissing(h)) if h == dangling));
}

#[test]
fn descending_through_a_file_fails() {
    let mut store = MemBlobstore::new();
    let (root, _) = fixture(&mut store);

    let mut mm = MemoryRootManifest::new(store, Some(root), None).expect("load failed");
    // `1` is a file in the baseline; treating it as a directory is refused.
    let r = mm.change_entry(
        &path(b"1/sub"),
        Some(HgBlobEntry::new(elem(b"sub"), 2, EntryKind::File)),
    );
    assert!(matches!(r, Err(ErrorKind::NotADirectory)));
    // Deeper still, navigation cannot even reach the parent directory.
    let r = mm.change_entry(
        &path(b"1/sub/deeper"),
        Some(HgBlobEntry::new(elem(b"deeper"), 3, EntryKind::File)),
    );
    assert!(matches!(r, Err(ErrorKind::PathNotFound(_))));
}

#[test]
fn merge_tagged_node_without_content_refuses_save() {
    let mut store = MemBlobstore::new();
    let (root, dir2) = fixture(&mut store);

    let node = MemoryManifestEntry::MemTree {
        base_manifest_id: Some(root),
        p1: Some(root),
        p2: Some(dir2),
        changes: ChangeMap::new(),
    };
    let r = node.save(&mut store, &RepoPath::RootPath);
    assert!(matches!(r, Err(ErrorKind::UnchangedManifest)));
}

#[test]
fn merging_a_merge_result_is_refused() {
    let mut store = MemBlobstore::new();
    let (root, dir2) = fixture(&mut store);

    let already_merged = MemoryManifestEntry::MemTree {
        base_manifest_id: Some(root),
        p1: Some(root),
        p2: Some(dir2),
        changes: ChangeMap::new(),
    };
    let fresh = MemoryManifestEntry::convert_treenode(dir2);
    let r = already_merged.merge_with_conflicts(&fresh, &mut store, &RepoPath::RootPath);
    assert!(matches!(r, Err(ErrorKind::ManifestAlreadyAMerge(a, b)) if a == root && b == dir2));
    // The check works from either side.
    let r = fresh.merge_with_conflicts(&already_merged, &mut store, &RepoPath::RootPath);
    assert!(matches!(r, Err(ErrorKind::ManifestAlreadyAMerge(a, b)) if a == root && b == dir2));
}

#[test]
fn conflicts_refuse_merging_again() {
    let mut store = MemBlobstore::new();
    let conflict = MemoryManifestEntry::Conflict(vec![
        blob_entry(b"f", 1),
        blob_entry(b"f", 2),
    ]);
    let other = blob_entry(b"f", 3);
    let r = conflict.merge_with_conflicts(&other, &mut store, &RepoPath::RootPath);
    assert!(matches!(r, Err(ErrorKind::UnresolvedConflicts)));
}

#[test]
fn editing_through_a_conflict_coerces_it() {
    // Editing below a conflicted directory resolves that one path locally:
    // the conflict becomes a two-parent tree taking its parents from the
    // tree-typed candidates.
    let mut store = MemBlobstore::new();
    let (_, dir2) = fixture(&mut store);
    let other_dir = put_listing(
        &mut store,
        vec![ManifestEntry { name: elem(b"other_file"), hash: 300, kind: EntryKind::File }],
    );

    let conflict = MemoryManifestEntry::Conflict(vec![
        MemoryManifestEntry::convert_treenode(dir2),
        MemoryManifestEntry::convert_treenode(other_dir),
    ]);
    let mut root_changes = ChangeMap::new();
    root_changes.insert(elem(b"dir"), Some(conflict));
    let root = MemoryManifestEntry::MemTree {
        base_manifest_id: None,
        p1: None,
        p2: None,
        changes: root_changes,
    };
    let mut mm = MemoryRootManifest { blobstore: store, root_entry: root };
    mm.change_entry(
        &path(b"dir/resolved"),
        Some(HgBlobEntry::new(elem(b"resolved"), 301, EntryKind::File)),
    )
    .expect("editing through a conflict must work");

    if let MemoryManifestEntry::MemTree { changes, .. } = &mm.root_entry {
        let dir = changes
            .entries
            .iter()
            .find(|(n, _)| n.bytes == b"dir".to_vec())
            .and_then(|(_, v)| v.as_ref())
            .expect("dir still present");
        match dir {
            MemoryManifestEntry::MemTree { base_manifest_id, p1, p2, .. } => {
                assert!(base_manifest_id.is_none(), "a coerced conflict has no baseline");
                assert_eq!(*p1, Some(dir2));
                assert_eq!(*p2, Some(other_dir));
            }
            _ => panic!("conflict was not coerced into a tree"),
        }
    } else {
        panic!("root is not a tree");
    }
}
