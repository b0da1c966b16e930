use memtree::mock_manifest::{Content, FileType, MockManifest};
use memtree::path::MPathElement;

fn elem(name: &[u8]) -> MPathElement {
    MPathElement::new(name.to_vec()).expect("valid path element")
}

#[test]
fn lookup() {
    let paths = vec![
        (b"foo/bar1".to_vec(), (FileType::Regular, b"bar1".to_vec())),
        (b"foo/bar2".to_vec(), (FileType::Symlink, b"bar2".to_vec())),
        (b"foo/baz/quux1".to_vec(), (FileType::Executable, b"quux1".to_vec())),
        (b"quux2".to_vec(), (FileType::Regular, b"quux2".to_vec())),
    ];
    let root_manifest = MockManifest::from_paths(paths).expect("manifest is valid");

    assert!(
        root_manifest.lookup(&elem(b"not-present")).is_none(),
        "entry not present, should be None"
    );
    let foo_entry = root_manifest.lookup(&elem(b"foo")).expect("foo should be present");
    let foo_manifest = match foo_entry.get_content() {
        Content::Tree(manifest) => manifest,
        other => panic!("expected Tree content, found {:?}", other),
    };

    let bar1_entry = foo_manifest.lookup(&elem(b"bar1")).expect("bar1 should be present");
    match bar1_entry.get_content() {
        Content::File(FileType::Regular, contents) => {
            assert_eq!(contents.as_slice(), &b"bar1"[..])
        }
        other => panic!("expected File content, found {:?}", other),
    };

    let bar2_entry = foo_manifest.lookup(&elem(b"bar2")).expect("bar2 should be present");
    match bar2_entry.get_content() {
        Content::File(FileType::Symlink, contents) => {
            assert_eq!(contents.as_slice(), &b"bar2"[..])
        }
        other => panic!("expected Symlink content, found {:?}", other),
    };
}

#[test]
fn nested_directories_close_properly() {
    let paths = vec![
        (b"a/deep/one".to_vec(), (FileType::Regular, b"1".to_vec())),
        (b"a/deep/two".to_vec(), (FileType::Regular, b"2".to_vec())),
        (b"b".to_vec(), (FileType::Regular, b"3".to_vec())),
    ];
    let m = MockManifest::from_paths(paths).expect("manifest is valid");
    let a = m.lookup(&elem(b"a")).expect("a present");
    let a_tree = match a.get_content() {
        Content::Tree(t) => t,
        _ => panic!("a should be a tree"),
    };
    let deep = a_tree.lookup(&elem(b"deep")).expect("deep present");
    let deep_tree = match deep.get_content() {
        Content::Tree(t) => t,
        _ => panic!("deep should be a tree"),
    };
    assert!(deep_tree.lookup(&elem(b"one")).is_some());
    assert!(deep_tree.lookup(&elem(b"two")).is_some());
    assert!(m.lookup(&elem(b"b")).is_some());
    assert_eq!(m.list().len(), 2);
}

#[test]
fn dir_hashes_are_assigned() {
    let paths = vec![(b"dir/file".to_vec(), (FileType::Regular, b"x".to_vec(), 5u64))];
    let dirs = vec![(b"dir".to_vec(), 99u64)];
    let m = MockManifest::from_path_hashes(paths, dirs).expect("manifest is valid");
    let dir = m.lookup(&elem(b"dir")).expect("dir present");
    assert_eq!(dir.get_hash(), Some(99));
    let tree = match dir.get_content() {
        Content::Tree(t) => t,
        _ => panic!("dir should be a tree"),
    };
    let file = tree.lookup(&elem(b"file")).expect("file present");
    assert_eq!(file.get_hash(), Some(5));
}

#[test]
fn file_colliding_with_directory_is_rejected() {
    // `foo` as a file cannot coexist with `foo/bar`.
    let paths = vec![
        (b"foo/bar".to_vec(), (FileType::Regular, b"1".to_vec())),
        (b"foo".to_vec(), (FileType::Regular, b"2".to_vec())),
    ];
    assert!(MockManifest::from_paths(paths).is_err());
}
