use vstd::prelude::*;
use crate::codec::EntryKind;
use crate::path::{MPath, MPathElement, bytes_lt, bytes_lt_exec, bytes_eq_exec};

verus! {

/// One entry of a revlog manifest: a name, a hash, a kind, and, for a tree,
/// the listing it contains.
#[derive(Debug)]
pub struct RevlogEntry {
    pub name: Option<MPathElement>,
    pub hash: u64,
    pub kind: EntryKind,
    pub children: Vec<RevlogEntry>,
}

/// A decoded revlog manifest: a listing of entries.
#[derive(Debug)]
pub struct RevlogManifest {
    pub entries: Vec<RevlogEntry>,
}

/// The mathematical value of a revlog entry; `children` is empty for
/// non-trees.
pub struct RevlogEntryV {
    pub name: Option<Seq<u8>>,
    pub hash: u64,
    pub kind: EntryKind,
    pub children: Seq<RevlogEntryV>,
}

pub open spec fn revlog_entry_view(e: &RevlogEntry) -> RevlogEntryV
    decreases e, 1int,
{
    RevlogEntryV {
        name: match e.name {
            Some(n) => Some(n@),
            None => None,
        },
        hash: e.hash,
        kind: e.kind,
        children: revlog_children_view(e.children@, e.children@.len() as int),
    }
}

/// The views of the first `n` entries of `s`.
pub open spec fn revlog_children_view(s: Seq<RevlogEntry>, n: int) -> Seq<RevlogEntryV>
    decreases s, 0int, n,
{
    if n <= 0 || n > s.len() {
        Seq::empty()
    } else {
        revlog_children_view(s, n - 1).push(revlog_entry_view(&s[n - 1]))
    }
}

pub proof fn lemma_revlog_children_view(s: Seq<RevlogEntry>, n: int)
    requires
        0 <= n <= s.len(),
    ensures
        revlog_children_view(s, n).len() == n,
        forall|i: int|
            0 <= i < n ==> revlog_children_view(s, n)[i] == revlog_entry_view(&s[i]),
    decreases n,
{
    if n > 0 {
        lemma_revlog_children_view(s, n - 1);
    }
}

impl View for RevlogEntry {
    type V = RevlogEntryV;

    open spec fn view(&self) -> RevlogEntryV {
        revlog_entry_view(self)
    }
}

impl View for RevlogManifest {
    type V = Seq<RevlogEntryV>;

    open spec fn view(&self) -> Seq<RevlogEntryV> {
        revlog_children_view(self.entries@, self.entries@.len() as int)
    }
}

/// How one path changed between two manifests.
#[derive(Debug)]
pub enum EntryStatus {
    Added(RevlogEntry),
    Deleted(RevlogEntry),
    /// Both entries have the same type; a change of type shows up as a
    /// deletion plus an addition instead.
    Modified(RevlogEntry, RevlogEntry),
}

/// A changed entry together with the path of the directory it sits in.
#[derive(Debug)]
pub struct ChangedEntry {
    pub path: Option<MPath>,
    pub status: EntryStatus,
}

pub enum EntryStatusV {
    Added(RevlogEntryV),
    Deleted(RevlogEntryV),
    Modified(RevlogEntryV, RevlogEntryV),
}

pub struct ChangedEntryV {
    pub path: Option<Seq<Seq<u8>>>,
    pub status: EntryStatusV,
}

impl View for EntryStatus {
    type V = EntryStatusV;

    open spec fn view(&self) -> EntryStatusV {
        match self {
            EntryStatus::Added(e) => EntryStatusV::Added(e@),
            EntryStatus::Deleted(e) => EntryStatusV::Deleted(e@),
            EntryStatus::Modified(a, b) => EntryStatusV::Modified(a@, b@),
        }
    }
}

impl View for ChangedEntry {
    type V = ChangedEntryV;

    open spec fn view(&self) -> ChangedEntryV {
        ChangedEntryV {
            path: match &self.path {
                Some(p) => Some(p@),
                None => None,
            },
            status: self.status@,
        }
    }
}

impl ChangedEntry {
    /// An entry newly present.
    pub fn new_added(path: Option<MPath>, entry: RevlogEntry) -> (r: ChangedEntry)
        ensures
            r@.status == EntryStatusV::Added(entry@),
            r@.path == match path {
                Some(p) => Some(p@),
                None => None::<Seq<Seq<u8>>>,
            },
    {
        ChangedEntry { path, status: EntryStatus::Added(entry) }
    }

    /// An entry no longer present.
    pub fn new_deleted(path: Option<MPath>, entry: RevlogEntry) -> (r: ChangedEntry)
        ensures
            r@.status == EntryStatusV::Deleted(entry@),
            r@.path == match path {
                Some(p) => Some(p@),
                None => None::<Seq<Seq<u8>>>,
            },
    {
        ChangedEntry { path, status: EntryStatus::Deleted(entry) }
    }

    /// An entry present on both sides with different contents.
    pub fn new_modified(path: Option<MPath>, left: RevlogEntry, right: RevlogEntry) -> (r:
        ChangedEntry)
        ensures
            r@.status == EntryStatusV::Modified(left@, right@),
            r@.path == match path {
                Some(p) => Some(p@),
                None => None::<Seq<Seq<u8>>>,
            },
    {
        ChangedEntry { path, status: EntryStatus::Modified(left, right) }
    }
}

/// Order on optional names: an unnamed entry sorts before any named one.
pub open spec fn opt_name_lt(a: Option<Seq<u8>>, b: Option<Seq<u8>>) -> bool {
    match (a, b) {
        (None, None) => false,
        (None, Some(_)) => true,
        (Some(_), None) => false,
        (Some(x), Some(y)) => bytes_lt(x, y),
    }
}

fn opt_name_cmp(a: &Option<MPathElement>, b: &Option<MPathElement>) -> (r: (bool, bool))
    ensures
        r.0 == opt_name_lt(
            match a {
                Some(x) => Some(x@),
                None => None,
            },
            match b {
                Some(y) => Some(y@),
                None => None,
            },
        ),
        r.1 == opt_name_lt(
            match b {
                Some(y) => Some(y@),
                None => None,
            },
            match a {
                Some(x) => Some(x@),
                None => None,
            },
        ),
{
    match (a, b) {
        (None, None) => (false, false),
        (None, Some(_)) => (true, false),
        (Some(_), None) => (false, true),
        (Some(x), Some(y)) => (bytes_lt_exec(&x.bytes, &y.bytes), bytes_lt_exec(
            &y.bytes,
            &x.bytes,
        )),
    }
}

/// The difference between two sorted listings: entries only on the left are
/// additions, entries only on the right are deletions, and a name present on
/// both sides is modified when the hashes differ, or split into an addition
/// and a deletion when the types differ.
pub open spec fn diff_spec(
    path: Option<Seq<Seq<u8>>>,
    l: Seq<RevlogEntryV>,
    r: Seq<RevlogEntryV>,
) -> Seq<ChangedEntryV>
    decreases l.len() + r.len(),
{
    if l.len() == 0 && r.len() == 0 {
        Seq::empty()
    } else if r.len() == 0 {
        seq![ChangedEntryV { path, status: EntryStatusV::Added(l[0]) }] + diff_spec(
            path,
            l.skip(1),
            r,
        )
    } else if l.len() == 0 {
        seq![ChangedEntryV { path, status: EntryStatusV::Deleted(r[0]) }] + diff_spec(
            path,
            l,
            r.skip(1),
        )
    } else if opt_name_lt(l[0].name, r[0].name) {
        seq![ChangedEntryV { path, status: EntryStatusV::Added(l[0]) }] + diff_spec(
            path,
            l.skip(1),
            r,
        )
    } else if opt_name_lt(r[0].name, l[0].name) {
        seq![ChangedEntryV { path, status: EntryStatusV::Deleted(r[0]) }] + diff_spec(
            path,
            l,
            r.skip(1),
        )
    } else if l[0].kind == r[0].kind {
        if l[0].hash != r[0].hash {
            seq![ChangedEntryV { path, status: EntryStatusV::Modified(l[0], r[0]) }] + diff_spec(
                path,
                l.skip(1),
                r.skip(1),
            )
        } else {
            diff_spec(path, l.skip(1), r.skip(1))
        }
    } else {
        seq![
            ChangedEntryV { path, status: EntryStatusV::Added(l[0]) },
            ChangedEntryV { path, status: EntryStatusV::Deleted(r[0]) },
        ] + diff_spec(path, l.skip(1), r.skip(1))
    }
}

pub open spec fn opt_path_view(p: &Option<MPath>) -> Option<Seq<Seq<u8>>> {
    match p {
        Some(q) => Some(q@),
        None => None,
    }
}

pub open spec fn changed_view(s: Seq<ChangedEntry>) -> Seq<ChangedEntryV> {
    s.map_values(|c: ChangedEntry| c@)
}

/// Compare two sorted listings and return their difference.
pub fn diff_sorted_vecs(path: Option<MPath>, left: Vec<RevlogEntry>, right: Vec<RevlogEntry>) -> (r:
    Vec<ChangedEntry>)
    ensures
        changed_view(r@) == diff_spec(
            opt_path_view(&path),
            left@.map_values(|e: RevlogEntry| e@),
            right@.map_values(|e: RevlogEntry| e@),
        ),
{
    let ghost pv = opt_path_view(&path);
    let ghost lv = left@.map_values(|e: RevlogEntry| e@);
    let ghost rv = right@.map_values(|e: RevlogEntry| e@);
    let mut left = left;
    let mut right = right;
    let mut res: Vec<ChangedEntry> = Vec::new();
    // Walk both listings front to back, consuming the smaller name first.
    while left.len() > 0 || right.len() > 0
        invariant
            left@.map_values(|e: RevlogEntry| e@).len() + right@.map_values(
                |e: RevlogEntry| e@,
            ).len() <= lv.len() + rv.len(),
            diff_spec(pv, lv, rv) == changed_view(res@) + diff_spec(
                pv,
                left@.map_values(|e: RevlogEntry| e@),
                right@.map_values(|e: RevlogEntry| e@),
            ),
            opt_path_view(&path) == pv,
        decreases left@.len() + right@.len(),
    {
        let ghost lcur = left@.map_values(|e: RevlogEntry| e@);
        let ghost rcur = right@.map_values(|e: RevlogEntry| e@);
        if right.len() == 0 {
            let e = left.remove(0);
            proof {
                assert(e@ == lcur[0]);
            }
            res.push(ChangedEntry { path: opt_path_clone(&path), status: EntryStatus::Added(e) });
            proof {
                assert(left@.map_values(|e: RevlogEntry| e@) =~= lcur.skip(1));
                assert(changed_view(res@) =~= changed_view(res@.drop_last()) + seq![
                    res@.last()@,
                ]);
                assert(changed_view(res@) + diff_spec(pv, lcur.skip(1), rcur) =~= changed_view(
                    res@.drop_last(),
                ) + diff_spec(pv, lcur, rcur));
            }
        } else if left.len() == 0 {
            let e = right.remove(0);
            proof {
                assert(e@ == rcur[0]);
            }
            res.push(ChangedEntry { path: opt_path_clone(&path), status: EntryStatus::Deleted(e) });
            proof {
                assert(right@.map_values(|e: RevlogEntry| e@) =~= rcur.skip(1));
                assert(changed_view(res@) =~= changed_view(res@.drop_last()) + seq![
                    res@.last()@,
                ]);
                assert(changed_view(res@) + diff_spec(pv, lcur, rcur.skip(1)) =~= changed_view(
                    res@.drop_last(),
                ) + diff_spec(pv, lcur, rcur));
            }
        } else {
            let (llt, rlt) = opt_name_cmp(&left[0].name, &right[0].name);
            proof {
                assert(left@[0]@ == lcur[0]);
                assert(right@[0]@ == rcur[0]);
            }
            if llt {
                let e = left.remove(0);
                res.push(
                    ChangedEntry { path: opt_path_clone(&path), status: EntryStatus::Added(e) },
                );
                proof {
                    assert(left@.map_values(|e: RevlogEntry| e@) =~= lcur.skip(1));
                    assert(changed_view(res@) =~= changed_view(res@.drop_last()) + seq![
                        res@.last()@,
                    ]);
                    assert(changed_view(res@) + diff_spec(pv, lcur.skip(1), rcur) =~= changed_view(
                        res@.drop_last(),
                    ) + diff_spec(pv, lcur, rcur));
                }
            } else if rlt {
                let e = right.remove(0);
                res.push(
                    ChangedEntry { path: opt_path_clone(&path), status: EntryStatus::Deleted(e) },
                );
                proof {
                    assert(right@.map_values(|e: RevlogEntry| e@) =~= rcur.skip(1));
                    assert(changed_view(res@) =~= changed_view(res@.drop_last()) + seq![
                        res@.last()@,
                    ]);
                    assert(changed_view(res@) + diff_spec(pv, lcur, rcur.skip(1)) =~= changed_view(
                        res@.drop_last(),
                    ) + diff_spec(pv, lcur, rcur));
                }
            } else {
                let le = left.remove(0);
                let re = right.remove(0);
                proof {
                    assert(le@ == lcur[0]);
                    assert(re@ == rcur[0]);
                    assert(left@.map_values(|e: RevlogEntry| e@) =~= lcur.skip(1));
                    assert(right@.map_values(|e: RevlogEntry| e@) =~= rcur.skip(1));
                }
                let same_kind = le.kind == re.kind;
                if same_kind {
                    if le.hash != re.hash {
                        res.push(
                            ChangedEntry {
                                path: opt_path_clone(&path),
                                status: EntryStatus::Modified(le, re),
                            },
                        );
                        proof {
                            assert(changed_view(res@) =~= changed_view(res@.drop_last()) + seq![
                                res@.last()@,
                            ]);
                            assert(changed_view(res@) + diff_spec(pv, lcur.skip(1), rcur.skip(1))
                                =~= changed_view(res@.drop_last()) + diff_spec(pv, lcur, rcur));
                        }
                    }
                } else {
                    res.push(
                        ChangedEntry { path: opt_path_clone(&path), status: EntryStatus::Added(le) },
                    );
                    res.push(
                        ChangedEntry {
                            path: opt_path_clone(&path),
                            status: EntryStatus::Deleted(re),
                        },
                    );
                    proof {
                        let two = seq![
                            res@[res@.len() - 2]@,
                            res@[res@.len() - 1]@,
                        ];
                        assert(changed_view(res@) =~= changed_view(
                            res@.drop_last().drop_last(),
                        ) + two);
                        assert(changed_view(res@) + diff_spec(pv, lcur.skip(1), rcur.skip(1)) =~=
                            changed_view(res@.drop_last().drop_last()) + diff_spec(
                            pv,
                            lcur,
                            rcur,
                        ));
                    }
                }
            }
        }
    }
    proof {
        assert(left@.map_values(|e: RevlogEntry| e@).len() == 0);
        assert(right@.map_values(|e: RevlogEntry| e@).len() == 0);
        assert(diff_spec(
            pv,
            left@.map_values(|e: RevlogEntry| e@),
            right@.map_values(|e: RevlogEntry| e@),
        ) =~= Seq::<ChangedEntryV>::empty());
        assert(changed_view(res@) + Seq::<ChangedEntryV>::empty() =~= changed_view(res@));
    }
    res
}

/// Clone an optional path.
pub fn opt_path_clone(p: &Option<MPath>) -> (r: Option<MPath>)
    ensures
        opt_path_view(&r) == opt_path_view(p),
{
    match p {
        Some(q) => Some(q.clone()),
        None => None,
    }
}

} // verus!

verus! {

/// Deep-copy a revlog entry; the copy has the same mathematical value.
pub fn clone_revlog_entry(e: &RevlogEntry) -> (r: RevlogEntry)
    ensures
        r@ == e@,
    decreases e,
{
    let mut children: Vec<RevlogEntry> = Vec::new();
    let mut i: usize = 0;
    while i < e.children.len()
        invariant
            i <= e.children@.len(),
            decreases_to!(*e => e.children),
            children@.len() == i,
            forall|j: int| 0 <= j < i ==> (#[trigger] children@[j])@ == e.children@[j]@,
        decreases e.children@.len() - i,
    {
        proof {
            assert(decreases_to!(e.children => e.children@));
            assert(decreases_to!(e.children@ => e.children@[i as int]));
        }
        children.push(clone_revlog_entry(&e.children[i]));
        i = i + 1;
    }
    let r = RevlogEntry {
        name: match &e.name {
            Some(n) => Some(n.clone()),
            None => None,
        },
        hash: e.hash,
        kind: e.kind,
        children,
    };
    proof {
        lemma_revlog_children_view(r.children@, r.children@.len() as int);
        lemma_revlog_children_view(e.children@, e.children@.len() as int);
        assert(revlog_children_view(r.children@, r.children@.len() as int)
            =~= revlog_children_view(e.children@, e.children@.len() as int));
    }
    r
}

/// The directory path of a tree entry: its name joined under the walk's
/// current path.
pub open spec fn join_path_opt(root: Option<Seq<Seq<u8>>>, name: Option<Seq<u8>>) -> Option<
    Seq<Seq<u8>>,
> {
    match name {
        None => root,
        Some(n) => Some(
            match root {
                None => seq![n],
                Some(p) => p.push(n),
            },
        ),
    }
}

/// All entries of a subtree with their paths: the entry itself first, then
/// its descendants.
pub open spec fn entry_stream_spec(rootpath: Option<Seq<Seq<u8>>>, e: RevlogEntryV) -> Seq<
    (Option<Seq<Seq<u8>>>, RevlogEntryV),
>
    decreases e, 1int,
{
    seq![(rootpath, e)] + (if e.kind == EntryKind::Tree {
        entry_stream_children(join_path_opt(rootpath, e.name), e.children, e.children.len() as int)
    } else {
        Seq::empty()
    })
}

pub open spec fn entry_stream_children(
    path: Option<Seq<Seq<u8>>>,
    s: Seq<RevlogEntryV>,
    n: int,
) -> Seq<(Option<Seq<Seq<u8>>>, RevlogEntryV)>
    decreases s, 0int, n,
{
    if n <= 0 || n > s.len() {
        Seq::empty()
    } else {
        entry_stream_children(path, s, n - 1) + entry_stream_spec(path, s[n - 1])
    }
}

fn opt_elem_clone(e: &Option<MPathElement>) -> (r: Option<MPathElement>)
    ensures
        match (&r, e) {
            (Some(a), Some(b)) => a@ == b@,
            (None, None) => true,
            _ => false,
        },
{
    match e {
        Some(x) => Some(x.clone()),
        None => None,
    }
}

fn join_path_opt_exec(root: &Option<MPath>, name: &Option<MPathElement>) -> (r: Option<MPath>)
    ensures
        opt_path_view(&r) == join_path_opt(
            opt_path_view(root),
            match name {
                Some(n) => Some(n@),
                None => None,
            },
        ),
{
    match name {
        None => opt_path_clone(root),
        Some(n) => {
            let mut elems: Vec<MPathElement> = match root {
                None => Vec::new(),
                Some(p) => p.clone().elems,
            };
            elems.push(n.clone());
            let p = MPath { elems };
            proof {
                match root {
                    None => {
                        assert(p@ =~= seq![n@]);
                    },
                    Some(q) => {
                        assert(p@ =~= q@.push(n@));
                    },
                }
            }
            Some(p)
        },
    }
}

/// The number of nodes in a revlog subtree; the recursion measure of the
/// tree walks.
pub open spec fn rsize(e: RevlogEntryV) -> nat
    decreases e, 1int,
{
    1 + rsize_children(e.children, e.children.len() as int)
}

pub open spec fn rsize_children(s: Seq<RevlogEntryV>, n: int) -> nat
    decreases s, 0int, n,
{
    if n <= 0 || n > s.len() {
        0
    } else {
        rsize_children(s, n - 1) + rsize(s[n - 1])
    }
}

pub proof fn lemma_rsize_child(s: Seq<RevlogEntryV>, n: int, i: int)
    requires
        0 <= i < n <= s.len(),
    ensures
        rsize(s[i]) <= rsize_children(s, n),
    decreases n,
{
    if i < n - 1 {
        lemma_rsize_child(s, n - 1, i);
    }
}

pub open spec fn stream_view(s: Seq<(Option<MPath>, RevlogEntry)>) -> Seq<
    (Option<Seq<Seq<u8>>>, RevlogEntryV),
> {
    s.map_values(|p: (Option<MPath>, RevlogEntry)| (opt_path_view(&p.0), p.1@))
}

/// Given an entry and the path of the directory it sits in, return it and
/// every entry below it, each with the path of its directory.
pub fn recursive_entry_stream(rootpath: Option<MPath>, entry: RevlogEntry) -> (r: Vec<
    (Option<MPath>, RevlogEntry),
>)
    ensures
        stream_view(r@) == entry_stream_spec(opt_path_view(&rootpath), entry@),
    decreases rsize(entry@),
{
    let mut out: Vec<(Option<MPath>, RevlogEntry)> = Vec::new();
    let is_tree = match entry.kind {
        EntryKind::Tree => true,
        _ => false,
    };
    let ghost rootv = opt_path_view(&rootpath);
    let path = join_path_opt_exec(&rootpath, &entry.name);
    let ghost pathv = opt_path_view(&path);
    let head = clone_revlog_entry(&entry);
    out.push((rootpath, head));
    proof {
        lemma_revlog_children_view(entry.children@, entry.children@.len() as int);
    }
    if is_tree {
        let ghost ev = entry@;
        let mut i: usize = 0;
        while i < entry.children.len()
            invariant
                i <= entry.children@.len(),
                decreases_to!(entry => entry.children),
                ev == entry@,
                ev.kind == EntryKind::Tree,
                ev.children.len() == entry.children@.len(),
                forall|j: int|
                    0 <= j < entry.children@.len() ==> ev.children[j] == entry.children@[j]@,
                pathv == opt_path_view(&path),
                pathv == join_path_opt(rootv, ev.name),
                stream_view(out@) == seq![(rootv, ev)] + entry_stream_children(
                    pathv,
                    ev.children,
                    i as int,
                ),
                out@.len() >= 1,
            decreases entry.children@.len() - i,
        {
            let child = clone_revlog_entry(&entry.children[i]);
            proof {
                lemma_rsize_child(ev.children, ev.children.len() as int, i as int);
                assert(child@ == ev.children[i as int]);
            }
            let mut sub = recursive_entry_stream(opt_path_clone(&path), child);
            let ghost pre = out@;
            let ghost subv = sub@;
            let total = sub.len();
            let mut k: usize = 0;
            proof {
                assert(subv.skip(0) =~= subv);
                assert(pre + subv.take(0) =~= pre);
            }
            while sub.len() > 0
                invariant
                    k <= total,
                    total == subv.len(),
                    sub@ == subv.skip(k as int),
                    out@ == pre + subv.take(k as int),
                decreases sub@.len(),
            {
                let item = sub.remove(0);
                proof {
                    assert(subv.skip(k as int)[0] == subv[k as int]);
                    assert(subv.skip(k as int).remove(0) =~= subv.skip(k + 1 as int));
                }
                out.push(item);
                proof {
                    assert(out@ =~= pre + subv.take(k + 1 as int));
                }
                k = k + 1;
            }
            proof {
                assert(subv.skip(k as int).len() == 0);
                assert(subv.take(k as int) =~= subv);
                assert(out@ =~= pre + subv);
            }
            proof {
                assert(stream_view(out@) =~= stream_view(pre) + stream_view(subv));
                assert(entry_stream_children(pathv, ev.children, i + 1 as int)
                    =~= entry_stream_children(pathv, ev.children, i as int) + entry_stream_spec(
                    pathv,
                    ev.children[i as int],
                ));
                assert(stream_view(out@) =~= seq![(rootv, ev)] + entry_stream_children(
                    pathv,
                    ev.children,
                    i + 1 as int,
                ));
            }
            i = i + 1;
        }
        proof {
            assert(stream_view(out@) =~= entry_stream_spec(rootv, ev));
        }
    } else {
        proof {
            assert(stream_view(out@) =~= entry_stream_spec(rootv, entry@));
        }
    }
    out
}

} // verus!

verus! {

pub open spec fn entries_view(s: Seq<RevlogEntry>) -> Seq<RevlogEntryV> {
    revlog_children_view(s, s.len() as int)
}

/// A whole added subtree, entry by entry.
pub open spec fn added_stream(path: Option<Seq<Seq<u8>>>, e: RevlogEntryV) -> Seq<ChangedEntryV> {
    entry_stream_spec(path, e).map_values(
        |p: (Option<Seq<Seq<u8>>>, RevlogEntryV)|
            ChangedEntryV { path: p.0, status: EntryStatusV::Added(p.1) },
    )
}

/// A whole deleted subtree, entry by entry.
pub open spec fn deleted_stream(path: Option<Seq<Seq<u8>>>, e: RevlogEntryV) -> Seq<
    ChangedEntryV,
> {
    entry_stream_spec(path, e).map_values(
        |p: (Option<Seq<Seq<u8>>>, RevlogEntryV)|
            ChangedEntryV { path: p.0, status: EntryStatusV::Deleted(p.1) },
    )
}

/// The recursive difference of two sorted listings: additions and deletions
/// expand to their whole subtrees, and a tree modified on both sides is
/// reported and then compared child by child under its path.
pub open spec fn changed_stream_spec(
    path: Option<Seq<Seq<u8>>>,
    l: Seq<RevlogEntryV>,
    r: Seq<RevlogEntryV>,
) -> Seq<ChangedEntryV>
    decreases l, r,
{
    if l.len() == 0 && r.len() == 0 {
        Seq::empty()
    } else if r.len() == 0 {
        added_stream(path, l[0]) + changed_stream_spec(path, l.skip(1), r)
    } else if l.len() == 0 {
        deleted_stream(path, r[0]) + changed_stream_spec(path, l, r.skip(1))
    } else if opt_name_lt(l[0].name, r[0].name) {
        added_stream(path, l[0]) + changed_stream_spec(path, l.skip(1), r)
    } else if opt_name_lt(r[0].name, l[0].name) {
        deleted_stream(path, r[0]) + changed_stream_spec(path, l, r.skip(1))
    } else if l[0].kind == r[0].kind {
        if l[0].hash != r[0].hash {
            seq![ChangedEntryV { path, status: EntryStatusV::Modified(l[0], r[0]) }] + (if l[0].kind
                == EntryKind::Tree {
                changed_stream_spec(
                    join_path_opt(path, l[0].name),
                    l[0].children,
                    r[0].children,
                )
            } else {
                Seq::empty()
            }) + changed_stream_spec(path, l.skip(1), r.skip(1))
        } else {
            changed_stream_spec(path, l.skip(1), r.skip(1))
        }
    } else {
        added_stream(path, l[0]) + deleted_stream(path, r[0]) + changed_stream_spec(
            path,
            l.skip(1),
            r.skip(1),
        )
    }
}

fn push_entry_stream(
    path: &Option<MPath>,
    entry: &RevlogEntry,
    deleted: bool,
    out: &mut Vec<ChangedEntry>,
)
    ensures
        changed_view(final(out)@) == changed_view(old(out)@) + (if deleted {
            deleted_stream(opt_path_view(path), entry@)
        } else {
            added_stream(opt_path_view(path), entry@)
        }),
{
    let copy = clone_revlog_entry(entry);
    let mut stream = recursive_entry_stream(opt_path_clone(path), copy);
    let ghost sv = stream_view(stream@);
    let total = stream.len();
    let mut k: usize = 0;
    proof {
        assert(stream@.len() == sv.len());
    }
    while stream.len() > 0
        invariant
            k <= total,
            total == sv.len(),
            stream@.len() == sv.len() - k,
            forall|j: int| 0 <= j < stream@.len() ==> (opt_path_view(&(#[trigger] stream@[j]).0), stream@[j].1@)
                == sv[k + j],
            changed_view(out@) == changed_view(old(out)@) + (if deleted {
                sv.take(k as int).map_values(
                    |p: (Option<Seq<Seq<u8>>>, RevlogEntryV)|
                        ChangedEntryV { path: p.0, status: EntryStatusV::Deleted(p.1) },
                )
            } else {
                sv.take(k as int).map_values(
                    |p: (Option<Seq<Seq<u8>>>, RevlogEntryV)|
                        ChangedEntryV { path: p.0, status: EntryStatusV::Added(p.1) },
                )
            }),
        decreases stream@.len(),
    {
        let (p, e) = stream.remove(0);
        let ghost pre_out = out@;
        if deleted {
            out.push(ChangedEntry { path: p, status: EntryStatus::Deleted(e) });
        } else {
            out.push(ChangedEntry { path: p, status: EntryStatus::Added(e) });
        }
        proof {
            assert(changed_view(out@) =~= changed_view(pre_out) + seq![out@.last()@]);
            if deleted {
                assert(changed_view(out@) =~= changed_view(old(out)@) + sv.take(
                    k + 1 as int,
                ).map_values(
                    |p: (Option<Seq<Seq<u8>>>, RevlogEntryV)|
                        ChangedEntryV { path: p.0, status: EntryStatusV::Deleted(p.1) },
                ));
            } else {
                assert(changed_view(out@) =~= changed_view(old(out)@) + sv.take(
                    k + 1 as int,
                ).map_values(
                    |p: (Option<Seq<Seq<u8>>>, RevlogEntryV)|
                        ChangedEntryV { path: p.0, status: EntryStatusV::Added(p.1) },
                ));
            }
        }
        k = k + 1;
    }
    proof {
        assert(sv.take(sv.len() as int) =~= sv);
    }
}

fn changed_stream_from(
    path: &Option<MPath>,
    left: &Vec<RevlogEntry>,
    i: usize,
    right: &Vec<RevlogEntry>,
    j: usize,
    out: &mut Vec<ChangedEntry>,
)
    requires
        i <= left@.len(),
        j <= right@.len(),
    ensures
        changed_view(final(out)@) == changed_view(old(out)@) + changed_stream_spec(
            opt_path_view(path),
            entries_view(left@).skip(i as int),
            entries_view(right@).skip(j as int),
        ),
    decreases left@.skip(i as int), right@.skip(j as int),
{
    let ghost pv = opt_path_view(path);
    let ghost lv = entries_view(left@).skip(i as int);
    let ghost rv = entries_view(right@).skip(j as int);
    proof {
        lemma_revlog_children_view(left@, left@.len() as int);
        lemma_revlog_children_view(right@, right@.len() as int);
    }
    if i == left.len() && j == right.len() {
        proof {
            assert(changed_view(out@) + changed_stream_spec(pv, lv, rv) =~= changed_view(out@));
        }
        return ;
    }
    if j == right.len() {
        proof {
            assert(lv[0] == left@[i as int]@);
            assert(left@.skip(i as int).skip(1) =~= left@.skip(i + 1 as int));
            assert(entries_view(left@).skip(i as int).skip(1) =~= entries_view(left@).skip(
                i + 1 as int,
            ));
        }
        push_entry_stream(path, &left[i], false, out);
        changed_stream_from(path, left, i + 1, right, j, out);
        return ;
    }
    if i == left.len() {
        proof {
            assert(rv[0] == right@[j as int]@);
            assert(right@.skip(j as int).skip(1) =~= right@.skip(j + 1 as int));
            assert(entries_view(right@).skip(j as int).skip(1) =~= entries_view(right@).skip(
                j + 1 as int,
            ));
        }
        push_entry_stream(path, &right[j], true, out);
        changed_stream_from(path, left, i, right, j + 1, out);
        return ;
    }
    proof {
        assert(lv[0] == left@[i as int]@);
        assert(rv[0] == right@[j as int]@);
        assert(left@.skip(i as int).skip(1) =~= left@.skip(i + 1 as int));
        assert(right@.skip(j as int).skip(1) =~= right@.skip(j + 1 as int));
        assert(entries_view(left@).skip(i as int).skip(1) =~= entries_view(left@).skip(
            i + 1 as int,
        ));
        assert(entries_view(right@).skip(j as int).skip(1) =~= entries_view(right@).skip(
            j + 1 as int,
        ));
    }
    let (llt, rlt) = opt_name_cmp(&left[i].name, &right[j].name);
    if llt {
        push_entry_stream(path, &left[i], false, out);
        changed_stream_from(path, left, i + 1, right, j, out);
    } else if rlt {
        push_entry_stream(path, &right[j], true, out);
        changed_stream_from(path, left, i, right, j + 1, out);
    } else if left[i].kind == right[j].kind {
        if left[i].hash != right[j].hash {
            let lcopy = clone_revlog_entry(&left[i]);
            let rcopy = clone_revlog_entry(&right[j]);
            let ghost pre_out = out@;
            let is_tree = match left[i].kind {
                EntryKind::Tree => true,
                _ => false,
            };
            out.push(
                ChangedEntry {
                    path: opt_path_clone(path),
                    status: EntryStatus::Modified(lcopy, rcopy),
                },
            );
            proof {
                assert(changed_view(out@) =~= changed_view(pre_out) + seq![
                    ChangedEntryV { path: pv, status: EntryStatusV::Modified(lv[0], rv[0]) },
                ]);
            }
            if is_tree {
                let sub_path = join_path_opt_exec(path, &left[i].name);
                proof {
                    assert(decreases_to!(left@.skip(i as int) => left@.skip(i as int)[0]));
                    assert(left@.skip(i as int)[0] == left@[i as int]);
                    assert(decreases_to!(left@[i as int] => left@[i as int].children));
                    assert(decreases_to!(left@[i as int].children => left@[i as int].children@));
                    assert(left@[i as int].children@.skip(0) =~= left@[i as int].children@);
                    assert(right@[j as int].children@.skip(0) =~= right@[j as int].children@);
                    assert(entries_view(left@[i as int].children@).skip(0) =~= entries_view(
                        left@[i as int].children@,
                    ));
                    assert(entries_view(right@[j as int].children@).skip(0) =~= entries_view(
                        right@[j as int].children@,
                    ));
                    lemma_revlog_children_view(
                        left@[i as int].children@,
                        left@[i as int].children@.len() as int,
                    );
                    lemma_revlog_children_view(
                        right@[j as int].children@,
                        right@[j as int].children@.len() as int,
                    );
                    assert(entries_view(left@[i as int].children@) =~= lv[0].children);
                    assert(entries_view(right@[j as int].children@) =~= rv[0].children);
                }
                changed_stream_from(&sub_path, &left[i].children, 0, &right[j].children, 0, out);
            }
            changed_stream_from(path, left, i + 1, right, j + 1, out);
        } else {
            changed_stream_from(path, left, i + 1, right, j + 1, out);
        }
    } else {
        push_entry_stream(path, &left[i], false, out);
        push_entry_stream(path, &right[j], true, out);
        changed_stream_from(path, left, i + 1, right, j + 1, out);
    }
}

/// The difference between two manifests as a flat list: every added, deleted
/// or modified entry, recursively, each with the path of its directory. The
/// first manifest is the newer side.
pub fn changed_entry_stream(
    to: &RevlogManifest,
    from: &RevlogManifest,
    path: Option<MPath>,
) -> (r: Vec<ChangedEntry>)
    ensures
        changed_view(r@) == changed_stream_spec(opt_path_view(&path), to@, from@),
{
    let mut out: Vec<ChangedEntry> = Vec::new();
    proof {
        assert(entries_view(to.entries@).skip(0) =~= to@);
        assert(entries_view(from.entries@).skip(0) =~= from@);
    }
    changed_stream_from(&path, &to.entries, 0, &from.entries, 0, &mut out);
    out
}

/// The listing a tree entry holds. Only meaningful for trees.
pub fn get_tree_content(entry: RevlogEntry) -> (r: RevlogManifest)
    requires
        entry@.kind == EntryKind::Tree,
    ensures
        r@ == entry@.children,
{
    let RevlogEntry { children, .. } = entry;
    RevlogManifest { entries: children }
}

} // verus!

verus! {

/// An entry a manifest newly carries relative to a parent: an addition or
/// the new side of a modification.
pub struct NewEntry {
    pub path: Option<MPath>,
    pub entry: RevlogEntry,
}

impl NewEntry {
    /// Keep the new side of a change; a deletion carries nothing new.
    pub fn from_changed_entry(ce: ChangedEntry) -> (r: Option<NewEntry>)
        ensures
            match ce@.status {
                EntryStatusV::Deleted(_) => r is None,
                EntryStatusV::Added(e) => (r matches Some(ne) && ne.entry@ == e
                    && opt_path_view(&ne.path) == ce@.path),
                EntryStatusV::Modified(e, _) => (r matches Some(ne) && ne.entry@ == e
                    && opt_path_view(&ne.path) == ce@.path),
            },
    {
        let ChangedEntry { path, status } = ce;
        match status {
            EntryStatus::Deleted(_) => None,
            EntryStatus::Added(entry) => Some(NewEntry { path, entry }),
            EntryStatus::Modified(entry, _) => Some(NewEntry { path, entry }),
        }
    }

    /// The pair form used downstream.
    pub fn into_tuple(self) -> (r: (Option<MPath>, RevlogEntry))
        ensures
            r == (self.path, self.entry),
    {
        (self.path, self.entry)
    }
}

/// The new-entry pairs a change stream yields.
pub open spec fn new_entries_spec(ces: Seq<ChangedEntryV>) -> Seq<
    (Option<Seq<Seq<u8>>>, RevlogEntryV),
>
    decreases ces.len(),
{
    if ces.len() == 0 {
        Seq::empty()
    } else {
        (match ces[0].status {
            EntryStatusV::Deleted(_) => Seq::empty(),
            EntryStatusV::Added(e) => seq![(ces[0].path, e)],
            EntryStatusV::Modified(e, _) => seq![(ces[0].path, e)],
        }) + new_entries_spec(ces.skip(1))
    }
}

pub open spec fn pair_paths(s: Seq<(Option<Seq<Seq<u8>>>, RevlogEntryV)>) -> Seq<
    Option<Seq<Seq<u8>>>,
> {
    s.map_values(|p: (Option<Seq<Seq<u8>>>, RevlogEntryV)| p.0)
}

pub open spec fn paths_contain(ps: Seq<Option<Seq<Seq<u8>>>>, p: Option<Seq<Seq<u8>>>) -> bool {
    exists|i: int| 0 <= i < ps.len() && ps[i] == p
}

/// The pairs of `a` whose path also occurs among `ps`, in `a`'s order.
pub open spec fn intersect_spec(
    a: Seq<(Option<Seq<Seq<u8>>>, RevlogEntryV)>,
    ps: Seq<Option<Seq<Seq<u8>>>>,
) -> Seq<(Option<Seq<Seq<u8>>>, RevlogEntryV)>
    decreases a.len(),
{
    if a.len() == 0 {
        Seq::empty()
    } else {
        (if paths_contain(ps, a[0].0) {
            seq![a[0]]
        } else {
            Seq::empty()
        }) + intersect_spec(a.skip(1), ps)
    }
}

/// Decide equality of two optional paths.
pub fn opt_path_eq(a: &Option<MPath>, b: &Option<MPath>) -> (r: bool)
    ensures
        r == (opt_path_view(a) == opt_path_view(b)),
{
    match (a, b) {
        (None, None) => true,
        (Some(x), Some(y)) => {
            if x.elems.len() != y.elems.len() {
                proof {
                    assert(x@.len() != y@.len());
                }
                return false;
            }
            let mut i: usize = 0;
            while i < x.elems.len()
                invariant
                    i <= x@.len(),
                    x@.len() == y@.len(),
                    opt_path_view(a) == Some(x@),
                    opt_path_view(b) == Some(y@),
                    forall|j: int| 0 <= j < i ==> x@[j] == y@[j],
                decreases x@.len() - i,
            {
                if !bytes_eq_exec(&x.elems[i].bytes, &y.elems[i].bytes) {
                    proof {
                        assert(x@[i as int] != y@[i as int]);
                    }
                    return false;
                }
                i = i + 1;
            }
            proof {
                assert(x@ =~= y@);
            }
            true
        },
        _ => false,
    }
}

fn filter_new_entries(ces: Vec<ChangedEntry>) -> (r: Vec<NewEntry>)
    ensures
        r@.map_values(|ne: NewEntry| (opt_path_view(&ne.path), ne.entry@)) == new_entries_spec(
            changed_view(ces@),
        ),
{
    let ghost cv = changed_view(ces@);
    let mut out: Vec<NewEntry> = Vec::new();
    let mut ces = ces;
    let total = ces.len();
    let mut k: usize = 0;
    proof {
        assert(changed_view(ces@).skip(0) =~= cv);
    }
    while ces.len() > 0
        invariant
            k <= total,
            total == cv.len(),
            changed_view(ces@) == cv.skip(k as int),
            new_entries_spec(cv) == out@.map_values(
                |ne: NewEntry| (opt_path_view(&ne.path), ne.entry@),
            ) + new_entries_spec(cv.skip(k as int)),
        decreases ces@.len(),
    {
        let ghost pre = out@;
        let ce = ces.remove(0);
        proof {
            assert(changed_view(ces@) =~= cv.skip(k as int).skip(1));
            assert(cv.skip(k as int).skip(1) =~= cv.skip(k + 1 as int));
            assert(ce@ == cv.skip(k as int)[0]);
        }
        match NewEntry::from_changed_entry(ce) {
            Some(ne) => {
                out.push(ne);
                proof {
                    assert(out@.map_values(|ne: NewEntry| (opt_path_view(&ne.path), ne.entry@))
                        =~= pre.map_values(
                        |ne: NewEntry| (opt_path_view(&ne.path), ne.entry@),
                    ) + seq![(opt_path_view(&out@.last().path), out@.last().entry@)]);
                }
            },
            None => {},
        }
        k = k + 1;
    }
    proof {
        assert(cv.skip(k as int).len() == 0);
        assert(new_entries_spec(cv.skip(k as int)) =~= Seq::<
            (Option<Seq<Seq<u8>>>, RevlogEntryV),
        >::empty());
        assert(new_entries_spec(cv) =~= out@.map_values(
            |ne: NewEntry| (opt_path_view(&ne.path), ne.entry@),
        ));
    }
    out
}

pub open spec fn tuple_stream_view(s: Seq<(Option<MPath>, RevlogEntry)>) -> Seq<
    (Option<Seq<Seq<u8>>>, RevlogEntryV),
> {
    s.map_values(|p: (Option<MPath>, RevlogEntry)| (opt_path_view(&p.0), p.1@))
}

/// The entries `root` newly carries compared to both parents: with one
/// parent (or none) simply everything new against it (or against the empty
/// manifest); with two parents, what is new against the first and also new
/// against the second, compared by path.
pub fn new_entry_intersection_stream(
    root: &RevlogManifest,
    p1: Option<&RevlogManifest>,
    p2: Option<&RevlogManifest>,
) -> (r: Vec<(Option<MPath>, RevlogEntry)>)
    ensures
        (p1 is None && p2 is None) ==> tuple_stream_view(r@) == new_entries_spec(
            changed_stream_spec(None, root@, Seq::empty()),
        ),
        p1 matches Some(m1) ==> (p2 is None ==> tuple_stream_view(r@) == new_entries_spec(
            changed_stream_spec(None, root@, m1@),
        )),
        p2 matches Some(m2) ==> (p1 is None ==> tuple_stream_view(r@) == new_entries_spec(
            changed_stream_spec(None, root@, m2@),
        )),
        p1 matches Some(m1) ==> (p2 matches Some(m2) ==> tuple_stream_view(r@) == intersect_spec(
            new_entries_spec(changed_stream_spec(None, root@, m1@)),
            pair_paths(new_entries_spec(changed_stream_spec(None, root@, m2@))),
        )),
{
    match (p1, p2) {
        (Some(m1), Some(m2)) => {
            let ne1 = filter_new_entries(changed_entry_stream(root, m1, None));
            let ne2 = filter_new_entries(changed_entry_stream(root, m2, None));
            let ghost av = ne1@.map_values(|ne: NewEntry| (opt_path_view(&ne.path), ne.entry@));
            let ghost bp = pair_paths(
                ne2@.map_values(|ne: NewEntry| (opt_path_view(&ne.path), ne.entry@)),
            );
            let mut out: Vec<(Option<MPath>, RevlogEntry)> = Vec::new();
            let mut ne1 = ne1;
            let total = ne1.len();
            let mut k: usize = 0;
            proof {
                assert(ne1@.map_values(
                    |ne: NewEntry| (opt_path_view(&ne.path), ne.entry@),
                ).skip(0) =~= av);
            }
            while ne1.len() > 0
                invariant
                    k <= total,
                    total == av.len(),
                    ne1@.map_values(|ne: NewEntry| (opt_path_view(&ne.path), ne.entry@))
                        == av.skip(k as int),
                    bp == pair_paths(
                        ne2@.map_values(|ne: NewEntry| (opt_path_view(&ne.path), ne.entry@)),
                    ),
                    intersect_spec(av, bp) == tuple_stream_view(out@) + intersect_spec(
                        av.skip(k as int),
                        bp,
                    ),
                decreases ne1@.len(),
            {
                let ne = ne1.remove(0);
                let ghost pre = out@;
                proof {
                    let m = |ne: NewEntry| (opt_path_view(&ne.path), ne.entry@);
                    assert(ne1@.map_values(m) =~= av.skip(k as int).skip(1));
                    assert(av.skip(k as int).skip(1) =~= av.skip(k + 1 as int));
                    assert((opt_path_view(&ne.path), ne.entry@) == av.skip(k as int)[0]);
                }
                // Keep the entry when its path is also new against p2.
                let mut found = false;
                let mut q: usize = 0;
                while q < ne2.len()
                    invariant
                        q <= ne2@.len(),
                        bp == pair_paths(
                            ne2@.map_values(
                                |ne: NewEntry| (opt_path_view(&ne.path), ne.entry@),
                            ),
                        ),
                        bp.len() == ne2@.len(),
                        found ==> paths_contain(bp, opt_path_view(&ne.path)),
                        !found ==> forall|x: int| 0 <= x < q ==> bp[x] != opt_path_view(&ne.path),
                    decreases ne2@.len() - q,
                {
                    if opt_path_eq(&ne2[q].path, &ne.path) {
                        proof {
                            assert(bp[q as int] == opt_path_view(&ne2@[q as int].path));
                        }
                        found = true;
                    }
                    q = q + 1;
                }
                proof {
                    if !found && paths_contain(bp, opt_path_view(&ne.path)) {
                        let x = choose|x: int|
                            0 <= x < bp.len() && bp[x] == opt_path_view(&ne.path);
                    }
                }
                if found {
                    let (p, e) = ne.into_tuple();
                    out.push((p, e));
                    proof {
                        assert(tuple_stream_view(out@) =~= tuple_stream_view(pre) + seq![
                            (opt_path_view(&out@.last().0), out@.last().1@),
                        ]);
                    }
                }
                k = k + 1;
            }
            proof {
                assert(av.skip(k as int).len() == 0);
                assert(intersect_spec(av.skip(k as int), bp) =~= Seq::<
                    (Option<Seq<Seq<u8>>>, RevlogEntryV),
                >::empty());
                assert(intersect_spec(av, bp) =~= tuple_stream_view(out@));
            }
            out
        },
        (Some(m1), None) => {
            let ne = filter_new_entries(changed_entry_stream(root, m1, None));
            new_entries_to_tuples(ne)
        },
        (None, Some(m2)) => {
            let ne = filter_new_entries(changed_entry_stream(root, m2, None));
            new_entries_to_tuples(ne)
        },
        (None, None) => {
            let empty = RevlogManifest { entries: Vec::new() };
            proof {
                assert(empty@ =~= Seq::<RevlogEntryV>::empty());
            }
            let ne = filter_new_entries(changed_entry_stream(root, &empty, None));
            new_entries_to_tuples(ne)
        },
    }
}

fn new_entries_to_tuples(ne: Vec<NewEntry>) -> (r: Vec<(Option<MPath>, RevlogEntry)>)
    ensures
        tuple_stream_view(r@) == ne@.map_values(
            |ne: NewEntry| (opt_path_view(&ne.path), ne.entry@),
        ),
{
    let ghost av = ne@.map_values(|ne: NewEntry| (opt_path_view(&ne.path), ne.entry@));
    let mut out: Vec<(Option<MPath>, RevlogEntry)> = Vec::new();
    let mut ne = ne;
    let total = ne.len();
    let mut k: usize = 0;
    proof {
        assert(ne@.map_values(|ne: NewEntry| (opt_path_view(&ne.path), ne.entry@)).skip(0)
            =~= av);
    }
    while ne.len() > 0
        invariant
            k <= total,
            total == av.len(),
            ne@.map_values(|ne: NewEntry| (opt_path_view(&ne.path), ne.entry@)) == av.skip(
                k as int,
            ),
            tuple_stream_view(out@) == av.take(k as int),
        decreases ne@.len(),
    {
        let item = ne.remove(0);
        proof {
            let m = |ne: NewEntry| (opt_path_view(&ne.path), ne.entry@);
            assert(ne@.map_values(m) =~= av.skip(k as int).skip(1));
            assert(av.skip(k as int).skip(1) =~= av.skip(k + 1 as int));
            assert((opt_path_view(&item.path), item.entry@) == av.skip(k as int)[0]);
        }
        let ghost pre2 = out@;
        let (p, e) = item.into_tuple();
        out.push((p, e));
        proof {
            assert(tuple_stream_view(out@) =~= tuple_stream_view(pre2) + seq![
                (opt_path_view(&out@.last().0), out@.last().1@),
            ]);
            assert(av.take(k + 1 as int) =~= av.take(k as int) + seq![av[k as int]]);
            assert(tuple_stream_view(out@) =~= av.take(k + 1 as int));
        }
        k = k + 1;
    }
    proof {
        assert(av.take(k as int) =~= av);
    }
    out
}

} // verus!
