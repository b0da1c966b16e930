use vstd::prelude::*;
use crate::codec::EntryKind;
use crate::errors::ErrorKind;
use crate::path::{MPath, MPathElement, RepoPath, bytes_eq_exec};

verus! {

/// The type of a non-tree file.
#[derive(Clone, Copy, Debug, PartialEq, Eq, Structural)]
pub enum FileType {
    Regular,
    Executable,
    Symlink,
}

impl FileType {
    /// The manifest entry kind this file type serializes as.
    pub open spec fn spec_kind(self) -> EntryKind {
        match self {
            FileType::Regular => EntryKind::File,
            FileType::Executable => EntryKind::Executable,
            FileType::Symlink => EntryKind::Symlink,
        }
    }

    pub fn kind(self) -> (r: EntryKind)
        ensures
            r == self.spec_kind(),
    {
        match self {
            FileType::Regular => EntryKind::File,
            FileType::Executable => EntryKind::Executable,
            FileType::Symlink => EntryKind::Symlink,
        }
    }
}

/// The content behind a mock entry: file bytes of a given type, or a whole
/// subtree, held as plain owned data.
#[derive(Debug)]
pub enum Content {
    File(FileType, Vec<u8>),
    Tree(Box<MockManifest>),
}

/// Build file content of the given type.
pub fn make_file(file_type: FileType, content: Vec<u8>) -> (r: Content)
    ensures
        r matches Content::File(t, b) && t == file_type && b@ == content@,
{
    Content::File(file_type, content)
}

/// An in-memory manifest used as a fixture: a listing of named entries.
#[derive(Debug)]
pub struct MockManifest {
    pub entries: Vec<(MPathElement, MockEntry)>,
}

/// One fixture entry: where it sits, its name, its content, and the type and
/// hash that were assigned to it, if any.
#[derive(Debug)]
pub struct MockEntry {
    pub path: RepoPath,
    pub name: Option<MPathElement>,
    pub content: Content,
    pub ty: Option<EntryKind>,
    pub hash: Option<u64>,
}

impl MockManifest {
    /// Create an empty manifest.
    pub fn empty() -> (r: MockManifest)
        ensures
            r.entries@.len() == 0,
    {
        MockManifest { entries: Vec::new() }
    }

    /// Look one name up, returning a reference to the entry under it.
    pub fn lookup(&self, path: &MPathElement) -> (r: Option<&MockEntry>)
        ensures
            match r {
                Some(e) => exists|i: int|
                    0 <= i < self.entries@.len() && (#[trigger] self.entries@[i]).0@ == path@ && e
                        == &self.entries@[i].1,
                None => forall|i: int|
                    0 <= i < self.entries@.len() ==> (#[trigger] self.entries@[i]).0@ != path@,
            },
    {
        let mut i: usize = 0;
        while i < self.entries.len()
            invariant
                i <= self.entries@.len(),
                forall|j: int| 0 <= j < i ==> (#[trigger] self.entries@[j]).0@ != path@,
            decreases self.entries@.len() - i,
        {
            if bytes_eq_exec(&self.entries[i].0.bytes, &path.bytes) {
                let e = &self.entries[i].1;
                proof {
                    assert(self.entries@[i as int].0@ == path@ && e == &self.entries@[
                        i as int
                    ].1);
                }
                return Some(e);
            }
            i = i + 1;
        }
        None
    }

    /// The listing itself, in insertion order.
    pub fn list(&self) -> (r: &Vec<(MPathElement, MockEntry)>)
        ensures
            r == &self.entries,
    {
        &self.entries
    }
}

impl MockEntry {
    /// A new entry at a path; its name is the path's basename, its type and
    /// hash are unset.
    pub fn new(path: RepoPath, content: Content) -> (r: MockEntry)
        requires
            path.wf(),
        ensures
            r.path == path,
            r.content == content,
            r.ty is None,
            r.hash is None,
            match r.name {
                Some(n) => path.spec_basename() == Some(n@),
                None => path.spec_basename() is None,
            },
    {
        let name = path.basename();
        MockEntry { path, name, content, ty: None, hash: None }
    }

    /// Wrap a manifest as a tree-typed entry at a path.
    pub fn from_manifest(path: RepoPath, mf: MockManifest) -> (r: MockEntry)
        requires
            path.wf(),
        ensures
            r.path == path,
            r.ty == Some(EntryKind::Tree),
            r.hash is None,
            r.content matches Content::Tree(m) && m == Box::new(mf),
            match r.name {
                Some(n) => path.spec_basename() == Some(n@),
                None => path.spec_basename() is None,
            },
    {
        let mut entry = MockEntry::new(path, Content::Tree(Box::new(mf)));
        entry.set_type(EntryKind::Tree);
        entry
    }

    /// Assign the entry's type.
    pub fn set_type(&mut self, ty: EntryKind)
        ensures
            *final(self) == (MockEntry { ty: Some(ty), ..*old(self) }),
    {
        self.ty = Some(ty);
    }

    /// Assign the entry's hash.
    pub fn set_hash(&mut self, hash: u64)
        ensures
            *final(self) == (MockEntry { hash: Some(hash), ..*old(self) }),
    {
        self.hash = Some(hash);
    }

    /// The entry's type; unset means it was never assigned.
    pub fn get_type(&self) -> (r: Option<EntryKind>)
        ensures
            r == self.ty,
    {
        self.ty
    }

    /// The entry's hash; unset means it was never assigned.
    pub fn get_hash(&self) -> (r: Option<u64>)
        ensures
            r == self.hash,
    {
        self.hash
    }

    /// The entry's name within its directory.
    pub fn get_name(&self) -> (r: &Option<MPathElement>)
        ensures
            r == &self.name,
    {
        &self.name
    }

    /// The entry's content.
    pub fn get_content(&self) -> (r: &Content)
        ensures
            r == &self.content,
    {
        &self.content
    }
}

/// Pop finished directories from the work stack until only `last_to_keep + 1`
/// levels remain, wrapping each popped level as a tree entry of its parent.
/// Fails when a directory name is already taken in its parent.
fn finalize_dirs(
    wip: &mut Vec<(Option<MPath>, Vec<(MPathElement, MockEntry)>)>,
    last_to_keep: usize,
    dir_hashes: &Vec<(MPath, u64)>,
) -> (r: Result<(), ErrorKind>)
    requires
        old(wip)@.len() >= 1,
        last_to_keep < old(wip)@.len(),
        forall|j: int|
            1 <= j < old(wip)@.len() ==> ((#[trigger] old(wip)@[j]).0 matches Some(p) && p.wf()),
        (old(wip)@[0]).0 is None,
    ensures
        r is Ok ==> final(wip)@.len() == last_to_keep + 1,
        final(wip)@.len() >= 1,
        forall|j: int|
            1 <= j < final(wip)@.len() ==> ((#[trigger] final(wip)@[j]).0 matches Some(p) && p.wf()),
        (final(wip)@[0]).0 is None,
        forall|j: int| 0 <= j < final(wip)@.len() ==> final(wip)@[j].0 == old(wip)@[j].0,
    decreases old(wip)@.len(),
{
    while wip.len() > last_to_keep + 1
        invariant
            wip@.len() >= last_to_keep + 1,
            wip@.len() >= 1,
            forall|j: int|
                1 <= j < wip@.len() ==> ((#[trigger] wip@[j]).0 matches Some(p) && p.wf()),
            (wip@[0]).0 is None,
            forall|j: int| 0 <= j < wip@.len() ==> wip@[j].0 == old(wip)@[j].0,
        decreases wip@.len(),
    {
        let (dir_opt, entries) = wip.pop().unwrap();
        let dir = match dir_opt {
            Some(d) => d,
            None => {
                // The root level is never popped.
                proof {
                    assert(false);
                }
                unreached()
            },
        };
        let basename = dir.basename().clone();
        let dir_manifest = MockManifest { entries };
        // Assign the directory its hash, if one was provided.
        let mut hash: Option<u64> = None;
        let mut k: usize = 0;
        while k < dir_hashes.len()
            invariant
                k <= dir_hashes@.len(),
                dir.wf(),
            decreases dir_hashes@.len() - k,
        {
            let mut same = dir_hashes[k].0.elems.len() == dir.elems.len();
            if same {
                let cc = dir_hashes[k].0.common_components(Some(&dir));
                same = cc == dir.elems.len();
            }
            if same {
                hash = Some(dir_hashes[k].1);
            }
            k = k + 1;
        }
        let mut dir_entry = MockEntry::from_manifest(
            RepoPath::DirectoryPath(dir),
            dir_manifest,
        );
        if let Some(h) = hash {
            dir_entry.set_hash(h);
        }
        // Insert into the parent level, refusing a name collision.
        let top = wip.len() - 1;
        let mut seen = false;
        let mut k2: usize = 0;
        let n2 = wip[top].1.len();
        while k2 < n2
            invariant
                k2 <= n2,
                top < wip@.len(),
                n2 == wip@[top as int].1@.len(),
                basename.wf() ==> true,
            decreases n2 - k2,
        {
            if bytes_eq_exec(&wip[top].1[k2].0.bytes, &basename.bytes) {
                seen = true;
            }
            k2 = k2 + 1;
        }
        if seen {
            return Err(ErrorKind::InvalidPathMap);
        }
        let ghost pre = wip@;
        let mut level = wip.pop().unwrap();
        level.1.push((basename, dir_entry));
        wip.push(level);
        proof {
            assert(wip@.len() == pre.len());
            assert(forall|j: int| 0 <= j < wip@.len() - 1 ==> wip@[j] == pre[j]);
            assert(wip@[wip@.len() - 1].0 == pre[pre.len() - 1].0);
        }
    }
    Ok(())
}

impl MockManifest {
    /// Build a root manifest from a sorted map of file paths to contents,
    /// assigning directories hashes from `dir_hashes`. Paths must come in
    /// strictly ascending order, and a file may not share a name with a
    /// directory; such inputs are rejected.
    pub fn from_path_map(
        path_map: Vec<(MPath, (FileType, Vec<u8>, Option<u64>))>,
        dir_hashes: &Vec<(MPath, u64)>,
    ) -> (r: Result<MockManifest, ErrorKind>)
        requires
            forall|i: int| 0 <= i < path_map@.len() ==> (#[trigger] path_map@[i]).0.wf(),
    {
        // Stack of directory names and entry lists currently being built.
        let mut wip: Vec<(Option<MPath>, Vec<(MPathElement, MockEntry)>)> = Vec::new();
        wip.push((None, Vec::new()));
        let mut path_map = path_map;
        let n = path_map.len();
        let mut idx: usize = 0;
        while idx < n
            invariant
                idx <= n,
                n == path_map@.len() + idx,
                wip@.len() >= 1,
                forall|j: int|
                    1 <= j < wip@.len() ==> ((#[trigger] wip@[j]).0 matches Some(p) && p.wf()),
                (wip@[0]).0 is None,
                forall|i: int| 0 <= i < path_map@.len() ==> (#[trigger] path_map@[i]).0.wf(),
            decreases n - idx,
        {
            let (path, item) = path_map.remove(0);
            let (file_type, content, hash) = item;
            // The index of the last component shared with the open stack.
            let common_idx = {
                let last_opt = &wip[wip.len() - 1].0;
                match last_opt {
                    None => 0,
                    Some(last) => path.common_components(Some(last)),
                }
            };
            if common_idx >= path.num_components() {
                // A file cannot share its whole path with an open directory.
                return Err(ErrorKind::InvalidPathMap);
            }
            if common_idx + 1 > wip.len() {
                return Err(ErrorKind::InvalidPathMap);
            }
            // Close directories that are now done.
            match finalize_dirs(&mut wip, common_idx, dir_hashes) {
                Ok(_) => {},
                Err(e) => {
                    return Err(e);
                },
            }
            // Open the intermediate directories of this path.
            let mut level = common_idx + 1;
            while level < path.num_components()
                invariant
                    wip@.len() >= 1,
                    path.wf(),
                    1 <= level,
                    forall|j: int|
                        1 <= j < wip@.len() ==> ((#[trigger] wip@[j]).0 matches Some(p) && p.wf()),
                    (wip@[0]).0 is None,
                decreases path@.len() - level,
            {
                let dir = path.take_prefix_components(level).unwrap();
                wip.push((Some(dir), Vec::new()));
                level = level + 1;
            }
            let basename = path.basename().clone();
            let cf = make_file(file_type, content);
            let mut entry = MockEntry::new(RepoPath::FilePath(path), cf);
            entry.set_type(file_type.kind());
            if let Some(h) = hash {
                entry.set_hash(h);
            }
            let ghost pre = wip@;
            let mut top = wip.pop().unwrap();
            top.1.push((basename, entry));
            wip.push(top);
            proof {
                assert(wip@.len() == pre.len());
                assert(forall|j: int| 0 <= j < wip@.len() - 1 ==> wip@[j] == pre[j]);
                assert(wip@[wip@.len() - 1].0 == pre[pre.len() - 1].0);
            }
            idx = idx + 1;
        }
        // Wrap up any remaining directories in the stack.
        match finalize_dirs(&mut wip, 0, dir_hashes) {
            Ok(_) => {},
            Err(e) => {
                return Err(e);
            },
        }
        let (_, entries) = wip.pop().unwrap();
        Ok(MockManifest { entries })
    }

    /// A byte-string front end for `from_path_map` that also takes entry
    /// hashes.
    pub fn from_path_hashes(
        paths: Vec<(Vec<u8>, (FileType, Vec<u8>, u64))>,
        dir_hashes: Vec<(Vec<u8>, u64)>,
    ) -> (r: Result<MockManifest, ErrorKind>)
    {
        let mut parsed: Vec<(MPath, (FileType, Vec<u8>, Option<u64>))> = Vec::new();
        let mut paths = paths;
        while paths.len() > 0
            invariant
                forall|i: int| 0 <= i < parsed@.len() ==> (#[trigger] parsed@[i]).0.wf(),
            decreases paths@.len(),
        {
            let (p, (ft, b, id)) = paths.remove(0);
            let mp = match MPath::new(&p) {
                Ok(mp) => mp,
                Err(_) => {
                    return Err(ErrorKind::InvalidPathMap);
                },
            };
            parsed.push((mp, (ft, b, Some(id))));
        }
        let mut parsed_dirs: Vec<(MPath, u64)> = Vec::new();
        let mut dir_hashes = dir_hashes;
        while dir_hashes.len() > 0
            decreases dir_hashes@.len(),
        {
            let (p, h) = dir_hashes.remove(0);
            let mp = match MPath::new(&p) {
                Ok(mp) => mp,
                Err(_) => {
                    return Err(ErrorKind::InvalidPathMap);
                },
            };
            parsed_dirs.push((mp, h));
        }
        Self::from_path_map(parsed, &parsed_dirs)
    }

    /// A byte-string front end for `from_path_map` without entry hashes.
    pub fn from_paths(paths: Vec<(Vec<u8>, (FileType, Vec<u8>))>) -> (r: Result<
        MockManifest,
        ErrorKind,
    >)
    {
        let mut parsed: Vec<(MPath, (FileType, Vec<u8>, Option<u64>))> = Vec::new();
        let mut paths = paths;
        while paths.len() > 0
            invariant
                forall|i: int| 0 <= i < parsed@.len() ==> (#[trigger] parsed@[i]).0.wf(),
            decreases paths@.len(),
        {
            let (p, (ft, b)) = paths.remove(0);
            let mp = match MPath::new(&p) {
                Ok(mp) => mp,
                Err(_) => {
                    return Err(ErrorKind::InvalidPathMap);
                },
            };
            parsed.push((mp, (ft, b, None)));
        }
        let empty_dirs: Vec<(MPath, u64)> = Vec::new();
        Self::from_path_map(parsed, &empty_dirs)
    }
}

} // verus!
