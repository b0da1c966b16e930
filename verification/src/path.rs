use vstd::prelude::*;
use crate::errors::ErrorKind;

verus! {

/// Strict lexicographic order on byte strings, the order manifest listings
/// are sorted in.
pub open spec fn bytes_lt(a: Seq<u8>, b: Seq<u8>) -> bool
    decreases a.len(),
{
    if b.len() == 0 {
        false
    } else if a.len() == 0 {
        true
    } else if a[0] != b[0] {
        a[0] < b[0]
    } else {
        bytes_lt(a.skip(1), b.skip(1))
    }
}

/// `bytes_lt` is a strict total order: exactly one of `a < b`, `a == b`,
/// `b < a` holds.
pub proof fn lemma_bytes_lt_trichotomy(a: Seq<u8>, b: Seq<u8>)
    ensures
        bytes_lt(a, b) || a == b || bytes_lt(b, a),
        bytes_lt(a, b) ==> !bytes_lt(b, a) && a != b,
        bytes_lt(b, a) ==> !bytes_lt(a, b) && a != b,
    decreases a.len(),
{
    if a.len() == 0 && b.len() == 0 {
        assert(a =~= b);
    } else if a.len() > 0 && b.len() > 0 && a[0] == b[0] {
        lemma_bytes_lt_trichotomy(a.skip(1), b.skip(1));
        if a.skip(1) == b.skip(1) {
            assert(a =~= b) by {
                assert(forall|i: int|
                    1 <= i < a.len() ==> a[i] == a.skip(1)[i - 1] && b[i] == b.skip(1)[i - 1]);
            }
        }
        if a == b {
            assert(a.skip(1) =~= b.skip(1));
        }
    }
}

/// `bytes_lt` is transitive.
pub proof fn lemma_bytes_lt_trans(a: Seq<u8>, b: Seq<u8>, c: Seq<u8>)
    requires
        bytes_lt(a, b),
        bytes_lt(b, c),
    ensures
        bytes_lt(a, c),
    decreases a.len(),
{
    if a.len() == 0 {
        // bytes_lt(b, c) forces c to be non-empty.
    } else {
        // a non-empty and bytes_lt(a, b) force b non-empty, likewise c.
        if a[0] == b[0] && b[0] == c[0] {
            lemma_bytes_lt_trans(a.skip(1), b.skip(1), c.skip(1));
        }
    }
}

fn bytes_lt_from(a: &Vec<u8>, b: &Vec<u8>, i: usize) -> (r: bool)
    requires
        i <= a@.len(),
        i <= b@.len(),
    ensures
        r == bytes_lt(a@.skip(i as int), b@.skip(i as int)),
    decreases a@.len() - i,
{
    if i == b.len() {
        false
    } else if i == a.len() {
        true
    } else if a[i] != b[i] {
        a[i] < b[i]
    } else {
        let r = bytes_lt_from(a, b, i + 1);
        proof {
            assert(a@.skip(i as int).skip(1) =~= a@.skip(i + 1 as int));
            assert(b@.skip(i as int).skip(1) =~= b@.skip(i + 1 as int));
        }
        r
    }
}

/// Decide `bytes_lt` on byte vectors.
pub fn bytes_lt_exec(a: &Vec<u8>, b: &Vec<u8>) -> (r: bool)
    ensures
        r == bytes_lt(a@, b@),
{
    proof {
        assert(a@.skip(0) =~= a@);
        assert(b@.skip(0) =~= b@);
    }
    bytes_lt_from(a, b, 0)
}

/// Decide equality of byte vectors.
pub fn bytes_eq_exec(a: &Vec<u8>, b: &Vec<u8>) -> (r: bool)
    ensures
        r == (a@ == b@),
{
    let lt = bytes_lt_exec(a, b);
    let gt = bytes_lt_exec(b, a);
    proof {
        lemma_bytes_lt_trichotomy(a@, b@);
    }
    !lt && !gt
}

/// Well-formed path element bytes: non-empty, and free of NUL, newline and
/// slash.
pub open spec fn elem_bytes_ok(s: Seq<u8>) -> bool {
    &&& s.len() > 0
    &&& forall|i: int| 0 <= i < s.len() ==> s[i] != 0 && s[i] != 10 && s[i] != 47
}

/// One component of a repository path.
#[derive(Debug, PartialEq, Eq)]
pub struct MPathElement {
    pub bytes: Vec<u8>,
}

impl Clone for MPathElement {
    fn clone(&self) -> (r: Self)
        ensures
            r@ == self@,
    {
        let bytes = self.bytes.clone();
        proof {
            assert(bytes@ =~= self.bytes@);
        }
        MPathElement { bytes }
    }
}

impl View for MPathElement {
    type V = Seq<u8>;

    open spec fn view(&self) -> Seq<u8> {
        self.bytes@
    }
}

impl MPathElement {
    pub open spec fn wf(&self) -> bool {
        elem_bytes_ok(self@)
    }

    /// Validate bytes as a single path component.
    pub fn new(bytes: Vec<u8>) -> (r: Result<MPathElement, ErrorKind>)
        ensures
            r is Ok <==> elem_bytes_ok(bytes@),
            r matches Ok(e) ==> e@ == bytes@ && e.wf(),
    {
        if bytes.len() == 0 {
            return Err(ErrorKind::InvalidPath);
        }
        let mut i: usize = 0;
        while i < bytes.len()
            invariant
                i <= bytes@.len(),
                forall|j: int| 0 <= j < i ==> bytes@[j] != 0 && bytes@[j] != 10 && bytes@[j] != 47,
            decreases bytes@.len() - i,
        {
            let c = bytes[i];
            if c == 0 || c == 10 || c == 47 {
                return Err(ErrorKind::InvalidPath);
            }
            i = i + 1;
        }
        Ok(MPathElement { bytes })
    }
}

/// Compare two path elements for equality.
pub fn elem_eq(a: &MPathElement, b: &MPathElement) -> (r: bool)
    ensures
        r == (a@ == b@),
{
    bytes_eq_exec(&a.bytes, &b.bytes)
}

/// A non-empty path: a sequence of path components.
#[derive(Debug, PartialEq, Eq)]
pub struct MPath {
    pub elems: Vec<MPathElement>,
}

impl Clone for MPath {
    fn clone(&self) -> (r: Self)
        ensures
            r@ == self@,
            r.wf() <==> self.wf(),
    {
        let mut elems: Vec<MPathElement> = Vec::new();
        let mut i: usize = 0;
        while i < self.elems.len()
            invariant
                i <= self.elems@.len(),
                elems@.len() == i,
                forall|j: int| 0 <= j < i ==> elems@[j]@ == self.elems@[j]@,
            decreases self.elems@.len() - i,
        {
            elems.push(self.elems[i].clone());
            i = i + 1;
        }
        let r = MPath { elems };
        proof {
            assert(r@ =~= self@);
            if self.wf() {
                assert forall|j: int| 0 <= j < r.elems@.len() implies (
                #[trigger] r.elems@[j]).wf() by {
                    assert(r.elems@[j]@ == self.elems@[j]@);
                    assert(self.elems@[j].wf());
                }
            }
            if r.wf() {
                assert forall|j: int| 0 <= j < self.elems@.len() implies (
                #[trigger] self.elems@[j]).wf() by {
                    assert(r.elems@[j]@ == self.elems@[j]@);
                    assert(r.elems@[j].wf());
                }
            }
        }
        r
    }
}

impl View for MPath {
    type V = Seq<Seq<u8>>;

    open spec fn view(&self) -> Seq<Seq<u8>> {
        self.elems@.map_values(|e: MPathElement| e@)
    }
}

/// Path bytes joined with `/` separators; empty input gives empty bytes.
pub open spec fn joined(s: Seq<Seq<u8>>) -> Seq<u8>
    decreases s.len(),
{
    if s.len() == 0 {
        Seq::empty()
    } else if s.len() == 1 {
        s[0]
    } else {
        joined(s.drop_last()) + seq![47u8] + s.last()
    }
}

/// Byte strings accepted by `MPath::new`: non-empty, free of NUL and newline,
/// with no leading, trailing or doubled slash.
pub open spec fn path_bytes_ok(s: Seq<u8>) -> bool {
    &&& s.len() > 0
    &&& forall|i: int| 0 <= i < s.len() ==> s[i] != 0 && s[i] != 10
    &&& s[0] != 47
    &&& s[s.len() - 1] != 47
    &&& forall|i: int| 0 <= i < s.len() - 1 ==> !((#[trigger] s[i]) == 47 && s[i + 1] == 47)
}

/// Copy `bytes[start..end]` into a fresh vector.
pub fn copy_range(bytes: &Vec<u8>, start: usize, end: usize) -> (r: Vec<u8>)
    requires
        start <= end <= bytes@.len(),
    ensures
        r@ == bytes@.subrange(start as int, end as int),
{
    let mut out: Vec<u8> = Vec::new();
    let mut i: usize = start;
    while i < end
        invariant
            start <= i <= end <= bytes@.len(),
            out@ == bytes@.subrange(start as int, i as int),
        decreases end - i,
    {
        out.push(bytes[i]);
        proof {
            assert(out@ =~= bytes@.subrange(start as int, i + 1 as int));
        }
        i = i + 1;
    }
    out
}

impl MPath {
    pub open spec fn wf(&self) -> bool {
        &&& self.elems@.len() > 0
        &&& forall|i: int| 0 <= i < self.elems@.len() ==> (#[trigger] self.elems@[i]).wf()
    }

    /// The number of components.
    pub fn num_components(&self) -> (r: usize)
        ensures
            r == self@.len(),
    {
        self.elems.len()
    }

    /// Parse a byte string of `/`-separated components into a path.
    /// Succeeds exactly on well-formed path bytes, and then the components
    /// joined back with `/` give the input again.
    pub fn new(bytes: &Vec<u8>) -> (r: Result<MPath, ErrorKind>)
        ensures
            r is Ok <==> path_bytes_ok(bytes@),
            r matches Ok(p) ==> p.wf() && joined(p@) == bytes@,
    {
        let n = bytes.len();
        if n == 0 {
            return Err(ErrorKind::InvalidPath);
        }
        let mut elems: Vec<MPathElement> = Vec::new();
        let mut start: usize = 0;
        let mut i: usize = 0;
        while i < n
            invariant
                n == bytes@.len(),
                start <= i <= n,
                start == 0 || bytes@[start - 1] == 47,
                start >= 1 ==> start <= n,
                elems@.len() == 0 <==> start == 0,
                forall|j: int| 0 <= j < elems@.len() ==> (#[trigger] elems@[j]).wf(),
                start >= 1 ==> joined(elems@.map_values(|e: MPathElement| e@)) == bytes@.subrange(
                    0,
                    start - 1,
                ),
                forall|j: int|
                    start <= j < i ==> bytes@[j] != 0 && bytes@[j] != 10 && bytes@[j] != 47,
                forall|j: int| 0 <= j < i ==> bytes@[j] != 0 && bytes@[j] != 10,
                forall|j: int| 0 <= j < i - 1 ==> !((#[trigger] bytes@[j]) == 47 && bytes@[j + 1]
                    == 47),
                bytes@.len() > 0 && i > 0 ==> bytes@[0] != 47,
            decreases n - i,
        {
            let c = bytes[i];
            if c == 0 || c == 10 {
                return Err(ErrorKind::InvalidPath);
            }
            if c == 47 {
                if i == start {
                    // A leading or doubled slash.
                    return Err(ErrorKind::InvalidPath);
                }
                let elem_bytes = copy_range(bytes, start, i);
                let ghost old_elems = elems@;
                elems.push(MPathElement { bytes: elem_bytes });
                proof {
                    let m = elems@.map_values(|e: MPathElement| e@);
                    assert(m.drop_last() =~= old_elems.map_values(|e: MPathElement| e@));
                    if old_elems.len() == 0 {
                        assert(joined(m) =~= bytes@.subrange(0, i as int));
                    } else {
                        assert(joined(m) =~= bytes@.subrange(0, i as int));
                    }
                }
                start = i + 1;
            }
            i = i + 1;
        }
        if start == n {
            // The input ended in a slash.
            return Err(ErrorKind::InvalidPath);
        }
        let elem_bytes = copy_range(bytes, start, n);
        let ghost old_elems = elems@;
        elems.push(MPathElement { bytes: elem_bytes });
        proof {
            let m = elems@.map_values(|e: MPathElement| e@);
            assert(m.drop_last() =~= old_elems.map_values(|e: MPathElement| e@));
            assert(joined(m) =~= bytes@);
        }
        Ok(MPath { elems })
    }

    /// Split into the leading directory part (if any) and the final
    /// component.
    pub fn split_dirname(&self) -> (r: (Option<MPath>, MPathElement))
        requires
            self.wf(),
        ensures
            r.1.wf(),
            r.1@ == self@.last(),
            self@.len() == 1 ==> r.0 is None,
            self@.len() > 1 ==> (r.0 matches Some(p) && p.wf() && p@ == self@.drop_last()),
    {
        let last = self.elems[self.elems.len() - 1].clone();
        proof {
            assert(last@ == self@.last());
        }
        if self.elems.len() == 1 {
            (None, last)
        } else {
            let mut prefix: Vec<MPathElement> = Vec::new();
            let mut i: usize = 0;
            while i < self.elems.len() - 1
                invariant
                    i <= self.elems@.len() - 1,
                    self.wf(),
                    prefix@.len() == i,
                    forall|j: int| 0 <= j < i ==> prefix@[j]@ == self.elems@[j]@
                        && (#[trigger] prefix@[j]).wf(),
                decreases self.elems@.len() - 1 - i,
            {
                let e = self.elems[i].clone();
                proof {
                    assert(self.elems@[i as int].wf());
                }
                prefix.push(e);
                i = i + 1;
            }
            let p = MPath { elems: prefix };
            proof {
                assert(p@ =~= self@.drop_last());
            }
            (Some(p), last)
        }
    }

    /// The number of leading components shared with another (optional) path.
    pub fn common_components(&self, other: Option<&MPath>) -> (r: usize)
        ensures
            r <= self@.len(),
            match other {
                Some(o) => r <= o@.len(),
                None => r == 0,
            },
            forall|j: int| 0 <= j < r ==> self@[j] == other.unwrap()@[j],
            match other {
                Some(o) => r < self@.len() && r < o@.len() ==> self@[r as int] != o@[r as int],
                None => true,
            },
    {
        match other {
            None => 0,
            Some(o) => {
                let mut i: usize = 0;
                while i < self.elems.len() && i < o.elems.len()
                    invariant
                        i <= self@.len(),
                        i <= o@.len(),
                        other == Some(o),
                        forall|j: int| 0 <= j < i ==> self@[j] == o@[j],
                    decreases self@.len() - i,
                {
                    if !elem_eq(&self.elems[i], &o.elems[i]) {
                        return i;
                    }
                    i = i + 1;
                }
                i
            },
        }
    }

    /// The path made of the first `n` components, or `None` when `n` is 0.
    pub fn take_prefix_components(&self, n: usize) -> (r: Option<MPath>)
        requires
            self.wf(),
            n <= self@.len(),
        ensures
            n == 0 ==> r is None,
            n > 0 ==> (r matches Some(p) && p.wf() && p@ == self@.take(n as int)),
    {
        if n == 0 {
            return None;
        }
        let mut elems: Vec<MPathElement> = Vec::new();
        let mut i: usize = 0;
        while i < n
            invariant
                i <= n <= self@.len(),
                self.wf(),
                elems@.len() == i,
                forall|j: int| 0 <= j < i ==> (#[trigger] elems@[j])@ == self.elems@[j]@ && elems@[
                    j
                ].wf(),
            decreases n - i,
        {
            let e = self.elems[i].clone();
            proof {
                assert(self.elems@[i as int].wf());
            }
            elems.push(e);
            i = i + 1;
        }
        let p = MPath { elems };
        proof {
            assert(p@ =~= self@.take(n as int));
        }
        Some(p)
    }

    /// The final component.
    pub fn basename(&self) -> (r: &MPathElement)
        requires
            self.wf(),
        ensures
            r@ == self@.last(),
            r.wf(),
    {
        &self.elems[self.elems.len() - 1]
    }
}

/// A path rooted at the top of the repository: the root itself, a file path,
/// or a directory path.
#[derive(Debug, PartialEq, Eq)]
pub enum RepoPath {
    RootPath,
    FilePath(MPath),
    DirectoryPath(MPath),
}

/// The mathematical value of a repository path.
pub enum RepoPathV {
    Root,
    File(Seq<Seq<u8>>),
    Dir(Seq<Seq<u8>>),
}

impl View for RepoPath {
    type V = RepoPathV;

    open spec fn view(&self) -> RepoPathV {
        match self {
            RepoPath::RootPath => RepoPathV::Root,
            RepoPath::FilePath(p) => RepoPathV::File(p@),
            RepoPath::DirectoryPath(p) => RepoPathV::Dir(p@),
        }
    }
}

impl Clone for RepoPath {
    fn clone(&self) -> (r: Self)
        ensures
            r@ == self@,
            r.wf() <==> self.wf(),
    {
        match self {
            RepoPath::RootPath => RepoPath::RootPath,
            RepoPath::FilePath(p) => RepoPath::FilePath(p.clone()),
            RepoPath::DirectoryPath(p) => RepoPath::DirectoryPath(p.clone()),
        }
    }
}

impl RepoPath {
    pub open spec fn wf(&self) -> bool {
        match self {
            RepoPath::RootPath => true,
            RepoPath::FilePath(p) => p.wf(),
            RepoPath::DirectoryPath(p) => p.wf(),
        }
    }

    /// The root path.
    pub fn root() -> (r: RepoPath)
        ensures
            r == RepoPath::RootPath,
    {
        RepoPath::RootPath
    }

    /// The name an entry saved at this path carries: none at the root, the
    /// basename otherwise.
    pub open spec fn spec_basename(&self) -> Option<Seq<u8>> {
        match self {
            RepoPath::RootPath => None,
            RepoPath::FilePath(p) => Some(p@.last()),
            RepoPath::DirectoryPath(p) => Some(p@.last()),
        }
    }

    /// The basename of the path, if it is not the root.
    pub fn basename(&self) -> (r: Option<MPathElement>)
        requires
            self.wf(),
        ensures
            match r {
                Some(e) => self.spec_basename() == Some(e@) && e.wf(),
                None => self.spec_basename() is None,
            },
    {
        match self {
            RepoPath::RootPath => None,
            RepoPath::FilePath(p) => Some(p.basename().clone()),
            RepoPath::DirectoryPath(p) => Some(p.basename().clone()),
        }
    }
}

/// Extend a root or directory path by one directory component. Used while
/// saving subtrees, which is why file paths are excluded.
pub fn extend_repopath_with_dir(path: &RepoPath, dir: &MPathElement) -> (r: RepoPath)
    requires
        path.wf(),
        !(path is FilePath),
        dir.wf(),
    ensures
        r.wf(),
        r is DirectoryPath,
        r.spec_basename() == Some(dir@),
        r@ == RepoPathV::Dir(
            match path@ {
                RepoPathV::Root => seq![dir@],
                RepoPathV::Dir(p) => p.push(dir@),
                RepoPathV::File(p) => p.push(dir@),
            },
        ),
{
    let mut elems: Vec<MPathElement> = match path {
        RepoPath::RootPath => Vec::new(),
        RepoPath::DirectoryPath(p) => p.clone().elems,
        RepoPath::FilePath(p) => p.clone().elems,
    };
    let ghost pre = elems@;
    let d = dir.clone();
    proof {
        assert(d.wf());
    }
    elems.push(d);
    let p = MPath { elems };
    proof {
        assert(p@.last() == dir@);
        assert(forall|j: int|
            0 <= j < pre.len() ==> (#[trigger] p.elems@[j]).wf() == pre[j].wf());
        match path {
            RepoPath::RootPath => {
                assert(p@ =~= seq![dir@]);
            },
            RepoPath::DirectoryPath(q) => {
                assert(p@ =~= q@.push(dir@));
            },
            RepoPath::FilePath(q) => {
                assert(p@ =~= q@.push(dir@));
            },
        }
    }
    RepoPath::DirectoryPath(p)
}

} // verus!
