use vstd::prelude::*;
use crate::codec::EntryKind;
use crate::errors::ErrorKind;
use crate::path::{MPathElement, bytes_lt, bytes_lt_exec, bytes_eq_exec, elem_bytes_ok};

verus! {

/// A reference to an already-persisted blob: its name (if it sits in a
/// directory), its hash, and its type. A leaf of the overlay tree.
#[derive(Debug)]
pub struct HgBlobEntry {
    pub name: Option<MPathElement>,
    pub hash: u64,
    pub kind: EntryKind,
}

/// The mathematical value of a blob entry.
#[verifier::ext_equal]
pub struct BlobEntryV {
    pub name: Option<Seq<u8>>,
    pub hash: u64,
    pub kind: EntryKind,
}

impl View for HgBlobEntry {
    type V = BlobEntryV;

    open spec fn view(&self) -> BlobEntryV {
        BlobEntryV {
            name: match self.name {
                Some(n) => Some(n@),
                None => None,
            },
            hash: self.hash,
            kind: self.kind,
        }
    }
}

impl Clone for HgBlobEntry {
    fn clone(&self) -> (r: Self)
        ensures
            r@ == self@,
    {
        let r = HgBlobEntry {
            name: match &self.name {
                Some(n) => Some(n.clone()),
                None => None,
            },
            hash: self.hash,
            kind: self.kind,
        };
        proof {
            assert(r@ =~= self@);
        }
        r
    }
}

impl HgBlobEntry {
    /// Build a named blob entry.
    pub fn new(name: MPathElement, hash: u64, kind: EntryKind) -> (r: HgBlobEntry)
        ensures
            r@ == (BlobEntryV { name: Some(name@), hash, kind }),
    {
        HgBlobEntry { name: Some(name), hash, kind }
    }

    /// Build an entry that refers to the root tree itself.
    pub fn new_root(hash: u64) -> (r: HgBlobEntry)
        ensures
            r@ == (BlobEntryV { name: None, hash, kind: EntryKind::Tree }),
    {
        HgBlobEntry { name: None, hash, kind: EntryKind::Tree }
    }
}

/// An in-memory manifest entry: a persisted leaf, an unresolved conflict, or
/// an overlay tree node layered over an optional persisted baseline.
#[derive(Debug)]
pub enum MemoryManifestEntry {
    /// A blob already in the blobstore; never a tree.
    Blob(HgBlobEntry),
    /// Conflicting candidates for one path, in merge-parent order.
    Conflict(Vec<MemoryManifestEntry>),
    /// An in-memory tree: a baseline it was materialized from (if any), up to
    /// two parent hashes it derives from, and the sparse changes layered on
    /// top. A name mapped to `None` is deleted relative to the baseline.
    MemTree {
        base_manifest_id: Option<u64>,
        p1: Option<u64>,
        p2: Option<u64>,
        changes: ChangeMap,
    },
}

/// The sparse change set of one overlay node: names mapped to a replacement
/// entry or to a deletion marker.
#[derive(Debug)]
pub struct ChangeMap {
    pub entries: Vec<(MPathElement, Option<MemoryManifestEntry>)>,
}

/// The mathematical value of a manifest entry. Changes are a sequence of
/// (name, optional entry) pairs with unique names.
pub enum EntryV {
    Blob(BlobEntryV),
    Conflict(Seq<EntryV>),
    MemTree {
        base: Option<u64>,
        p1: Option<u64>,
        p2: Option<u64>,
        changes: Seq<(Seq<u8>, Option<EntryV>)>,
    },
}

pub open spec fn entry_view(e: &MemoryManifestEntry) -> EntryV
    decreases e, 1int,
{
    match e {
        MemoryManifestEntry::Blob(b) => EntryV::Blob(b@),
        MemoryManifestEntry::Conflict(v) => EntryV::Conflict(
            conflict_view(v@, v@.len() as int),
        ),
        MemoryManifestEntry::MemTree { base_manifest_id, p1, p2, changes } => EntryV::MemTree {
            base: *base_manifest_id,
            p1: *p1,
            p2: *p2,
            changes: changes_view(changes.entries@, changes.entries@.len() as int),
        },
    }
}

/// The views of the first `n` conflict candidates.
pub open spec fn conflict_view(s: Seq<MemoryManifestEntry>, n: int) -> Seq<EntryV>
    decreases s, 0int, n,
{
    if n <= 0 || n > s.len() {
        Seq::empty()
    } else {
        conflict_view(s, n - 1).push(entry_view(&s[n - 1]))
    }
}

/// The views of the first `n` change pairs.
pub open spec fn changes_view(s: Seq<(MPathElement, Option<MemoryManifestEntry>)>, n: int) -> Seq<
    (Seq<u8>, Option<EntryV>),
>
    decreases s, 0int, n,
{
    if n <= 0 || n > s.len() {
        Seq::empty()
    } else {
        changes_view(s, n - 1).push(
            (
                s[n - 1].0@,
                match s[n - 1].1 {
                    Some(c) => Some(entry_view(&c)),
                    None => None,
                },
            ),
        )
    }
}

pub proof fn lemma_conflict_view(s: Seq<MemoryManifestEntry>, n: int)
    requires
        0 <= n <= s.len(),
    ensures
        conflict_view(s, n).len() == n,
        forall|i: int| 0 <= i < n ==> conflict_view(s, n)[i] == entry_view(&s[i]),
    decreases n,
{
    if n > 0 {
        lemma_conflict_view(s, n - 1);
    }
}

pub proof fn lemma_changes_view(s: Seq<(MPathElement, Option<MemoryManifestEntry>)>, n: int)
    requires
        0 <= n <= s.len(),
    ensures
        changes_view(s, n).len() == n,
        forall|i: int|
            0 <= i < n ==> changes_view(s, n)[i] == (
                s[i].0@,
                match s[i].1 {
                    Some(c) => Some(entry_view(&c)),
                    None => None,
                },
            ),
    decreases n,
{
    if n > 0 {
        lemma_changes_view(s, n - 1);
    }
}

impl View for MemoryManifestEntry {
    type V = EntryV;

    open spec fn view(&self) -> EntryV {
        entry_view(self)
    }
}

impl View for ChangeMap {
    type V = Seq<(Seq<u8>, Option<EntryV>)>;

    open spec fn view(&self) -> Seq<(Seq<u8>, Option<EntryV>)> {
        changes_view(self.entries@, self.entries@.len() as int)
    }
}

/// The largest baseline hash reachable through the in-memory part of an
/// entry; loading never touches anything above it.
pub open spec fn max_base_v(ev: EntryV) -> nat
    decreases ev, 1int,
{
    match ev {
        EntryV::Blob(_) => 0,
        EntryV::Conflict(_) => 0,
        EntryV::MemTree { base, changes, .. } => {
            let b: nat = match base {
                Some(h) => h as nat,
                None => 0,
            };
            let c = cmax(changes, changes.len() as int);
            if b > c {
                b
            } else {
                c
            }
        },
    }
}

pub open spec fn cmax(s: Seq<(Seq<u8>, Option<EntryV>)>, n: int) -> nat
    decreases s, 0int, n,
{
    if n <= 0 || n > s.len() {
        0
    } else {
        let d: nat = match s[n - 1].1 {
            Some(c) => max_base_v(c),
            None => 0,
        };
        let rest = cmax(s, n - 1);
        if d > rest {
            d
        } else {
            rest
        }
    }
}

/// The in-memory nesting depth of an entry.
pub open spec fn depth_v(ev: EntryV) -> nat
    decreases ev, 1int,
{
    match ev {
        EntryV::Blob(_) => 0,
        EntryV::Conflict(_) => 0,
        EntryV::MemTree { changes, .. } => 1 + cdepth(changes, changes.len() as int),
    }
}

pub open spec fn cdepth(s: Seq<(Seq<u8>, Option<EntryV>)>, n: int) -> nat
    decreases s, 0int, n,
{
    if n <= 0 || n > s.len() {
        0
    } else {
        let d: nat = match s[n - 1].1 {
            Some(c) => depth_v(c),
            None => 0,
        };
        let rest = cdepth(s, n - 1);
        if d > rest {
            d
        } else {
            rest
        }
    }
}

/// The termination measure: recursion descends either to a strictly smaller
/// largest-baseline, or within the same bound to a structurally shallower
/// node.
pub open spec fn measure_lt(a: EntryV, b: EntryV) -> bool {
    max_base_v(a) < max_base_v(b) || (max_base_v(a) == max_base_v(b) && depth_v(a) < depth_v(b))
}

proof fn lemma_cmax_bound(s: Seq<(Seq<u8>, Option<EntryV>)>, n: int, i: int)
    requires
        0 <= i < n <= s.len(),
        s[i].1 is Some,
    ensures
        max_base_v(s[i].1->Some_0) <= cmax(s, n),
    decreases n,
{
    if i < n - 1 {
        lemma_cmax_bound(s, n - 1, i);
    }
}

proof fn lemma_cdepth_bound(s: Seq<(Seq<u8>, Option<EntryV>)>, n: int, i: int)
    requires
        0 <= i < n <= s.len(),
        s[i].1 is Some,
    ensures
        depth_v(s[i].1->Some_0) <= cdepth(s, n),
    decreases n,
{
    if i < n - 1 {
        lemma_cdepth_bound(s, n - 1, i);
    }
}

/// A change value is strictly below its node in the recursion measure.
pub proof fn lemma_change_value_measure(ev: EntryV, i: int)
    requires
        ev is MemTree,
        0 <= i < ev->MemTree_changes.len(),
        ev->MemTree_changes[i].1 is Some,
    ensures
        measure_lt(ev->MemTree_changes[i].1->Some_0, ev),
{
    let s = ev->MemTree_changes;
    lemma_cmax_bound(s, s.len() as int, i);
    lemma_cdepth_bound(s, s.len() as int, i);
}

/// Well-formed entries: blob leaves are never trees, change names are unique
/// well-formed path elements, and the same holds below.
pub open spec fn entry_wf(ev: EntryV) -> bool
    decreases ev, 1int,
{
    match ev {
        EntryV::Blob(b) => b.kind != EntryKind::Tree,
        EntryV::Conflict(cs) => conflict_wf(cs, cs.len() as int),
        EntryV::MemTree { changes, .. } => {
            &&& changes_wf(changes, changes.len() as int)
            &&& forall|i: int, j: int|
                0 <= i < j < changes.len() ==> (#[trigger] changes[i]).0 != (
                #[trigger] changes[j]).0
        },
    }
}

pub open spec fn conflict_wf(s: Seq<EntryV>, n: int) -> bool
    decreases s, 0int, n,
{
    if n <= 0 || n > s.len() {
        true
    } else {
        conflict_wf(s, n - 1) && entry_wf(s[n - 1])
    }
}

pub open spec fn changes_wf(s: Seq<(Seq<u8>, Option<EntryV>)>, n: int) -> bool
    decreases s, 0int, n,
{
    if n <= 0 || n > s.len() {
        true
    } else {
        changes_wf(s, n - 1) && elem_bytes_ok(s[n - 1].0) && match s[n - 1].1 {
            Some(c) => entry_wf(c),
            None => true,
        }
    }
}

pub proof fn lemma_changes_wf(s: Seq<(Seq<u8>, Option<EntryV>)>, n: int, i: int)
    requires
        0 <= i < n <= s.len(),
        changes_wf(s, n),
    ensures
        elem_bytes_ok(s[i].0),
        s[i].1 is Some ==> entry_wf(s[i].1->Some_0),
    decreases n,
{
    if i < n - 1 {
        lemma_changes_wf(s, n - 1, i);
    }
}

pub proof fn lemma_conflict_wf(s: Seq<EntryV>, n: int, i: int)
    requires
        0 <= i < n <= s.len(),
        conflict_wf(s, n),
    ensures
        entry_wf(s[i]),
    decreases n,
{
    if i < n - 1 {
        lemma_conflict_wf(s, n - 1, i);
    }
}

} // verus!

verus! {

/// Deep-copy an entry; the copy has the same mathematical value. A clone is
/// an independent copy: mutation goes through the owning root, never through
/// a shared handle.
pub fn clone_entry(e: &MemoryManifestEntry) -> (r: MemoryManifestEntry)
    ensures
        r@ == e@,
    decreases e,
{
    match e {
        MemoryManifestEntry::Blob(b) => MemoryManifestEntry::Blob(b.clone()),
        MemoryManifestEntry::Conflict(v) => {
            let mut out: Vec<MemoryManifestEntry> = Vec::new();
            let mut i: usize = 0;
            while i < v.len()
                invariant
                    i <= v@.len(),
                    decreases_to!(*e => *v),
                    out@.len() == i,
                    forall|j: int| 0 <= j < i ==> (#[trigger] out@[j])@ == v@[j]@,
                decreases v@.len() - i,
            {
                proof {
                    assert(decreases_to!(*v => v@));
                    assert(decreases_to!(v@ => v@[i as int]));
                }
                out.push(clone_entry(&v[i]));
                i = i + 1;
            }
            let r = MemoryManifestEntry::Conflict(out);
            proof {
                lemma_conflict_view(out@, out@.len() as int);
                lemma_conflict_view(v@, v@.len() as int);
                assert(conflict_view(out@, out@.len() as int) =~= conflict_view(
                    v@,
                    v@.len() as int,
                ));
            }
            r
        },
        MemoryManifestEntry::MemTree { base_manifest_id, p1, p2, changes } => {
            let mut out: Vec<(MPathElement, Option<MemoryManifestEntry>)> = Vec::new();
            let mut i: usize = 0;
            while i < changes.entries.len()
                invariant
                    i <= changes.entries@.len(),
                    decreases_to!(*e => *changes),
                    out@.len() == i,
                    forall|j: int|
                        0 <= j < i ==> (#[trigger] out@[j]).0@ == changes.entries@[j].0@ && (match (
                            out@[j].1,
                            changes.entries@[j].1,
                        ) {
                            (Some(a), Some(b)) => a@ == b@,
                            (None, None) => true,
                            _ => false,
                        }),
                decreases changes.entries@.len() - i,
            {
                let pair = &changes.entries[i];
                proof {
                    assert(decreases_to!(*changes => changes.entries@));
                    assert(decreases_to!(changes.entries@ => changes.entries@[i as int]));
                    assert(decreases_to!(changes.entries@[i as int] => changes.entries@[
                        i as int
                    ].1));
                }
                let name = pair.0.clone();
                let val = match &pair.1 {
                    Some(c) => {
                        proof {
                            assert(decreases_to!(changes.entries@[i as int].1 => *c));
                        }
                        Some(clone_entry(c))
                    },
                    None => None,
                };
                out.push((name, val));
                i = i + 1;
            }
            let r = MemoryManifestEntry::MemTree {
                base_manifest_id: *base_manifest_id,
                p1: *p1,
                p2: *p2,
                changes: ChangeMap { entries: out },
            };
            proof {
                let n = changes.entries@.len() as int;
                lemma_changes_view(out@, n);
                lemma_changes_view(changes.entries@, n);
                assert(changes_view(out@, n) =~= changes_view(changes.entries@, n));
            }
            r
        },
    }
}

impl Clone for MemoryManifestEntry {
    fn clone(&self) -> (r: Self)
        ensures
            r@ == self@,
    {
        clone_entry(self)
    }
}

/// Whether a change sequence binds `name`.
pub open spec fn cseq_contains(s: Seq<(Seq<u8>, Option<EntryV>)>, name: Seq<u8>) -> bool {
    exists|i: int| 0 <= i < s.len() && (#[trigger] s[i]).0 == name
}

/// The value a change sequence binds `name` to; meaningful when the names are
/// unique and `name` is bound.
pub open spec fn cseq_get(s: Seq<(Seq<u8>, Option<EntryV>)>, name: Seq<u8>) -> Option<EntryV> {
    let i = choose|i: int| 0 <= i < s.len() && (#[trigger] s[i]).0 == name;
    s[i].1
}

/// Unique change names.
pub open spec fn cseq_unique(s: Seq<(Seq<u8>, Option<EntryV>)>) -> bool {
    forall|i: int, j: int| 0 <= i < j < s.len() ==> (#[trigger] s[i]).0 != (#[trigger] s[j]).0
}

impl ChangeMap {
    pub open spec fn wf(&self) -> bool {
        &&& cseq_unique(self@)
        &&& changes_wf(self@, self@.len() as int)
    }

    /// An empty change set.
    pub fn new() -> (r: ChangeMap)
        ensures
            r@ == Seq::<(Seq<u8>, Option<EntryV>)>::empty(),
            r.wf(),
    {
        let r = ChangeMap { entries: Vec::new() };
        proof {
            assert(r@ =~= Seq::<(Seq<u8>, Option<EntryV>)>::empty());
        }
        r
    }

    /// The number of changed names.
    pub fn len(&self) -> (r: usize)
        ensures
            r == self@.len(),
    {
        proof {
            lemma_changes_view(self.entries@, self.entries@.len() as int);
        }
        self.entries.len()
    }

    /// The name and value at one index, copied out.
    pub fn get_at(&self, i: usize) -> (r: (MPathElement, Option<MemoryManifestEntry>))
        requires
            i < self@.len(),
        ensures
            r.0@ == self@[i as int].0,
            match (r.1, self@[i as int].1) {
                (Some(a), Some(b)) => a@ == b,
                (None, None) => true,
                _ => false,
            },
    {
        proof {
            lemma_changes_view(self.entries@, self.entries@.len() as int);
        }
        let pair = &self.entries[i];
        (
            pair.0.clone(),
            match &pair.1 {
                Some(c) => Some(clone_entry(c)),
                None => None,
            },
        )
    }

    /// Whether `name` is changed.
    pub fn contains(&self, name: &MPathElement) -> (r: bool)
        ensures
            r == cseq_contains(self@, name@),
    {
        proof {
            lemma_changes_view(self.entries@, self.entries@.len() as int);
        }
        let mut i: usize = 0;
        while i < self.entries.len()
            invariant
                i <= self.entries@.len(),
                self@.len() == self.entries@.len(),
                forall|j: int| 0 <= j < self@.len() ==> (#[trigger] self@[j]).0 == self.entries@[j].0@,
                forall|j: int| 0 <= j < i ==> (#[trigger] self.entries@[j]).0@ != name@,
            decreases self.entries@.len() - i,
        {
            if bytes_eq_exec(&self.entries[i].0.bytes, &name.bytes) {
                proof {
                    assert(self@[i as int].0 == name@);
                }
                return true;
            }
            i = i + 1;
        }
        proof {
            if cseq_contains(self@, name@) {
                let k = choose|k: int| 0 <= k < self@.len() && (#[trigger] self@[k]).0 == name@;
            }
        }
        false
    }

    /// Remove and return the binding of `name`, if any.
    pub fn take(&mut self, name: &MPathElement) -> (r: Option<Option<MemoryManifestEntry>>)
        requires
            old(self).wf(),
        ensures
            final(self).wf(),
            match r {
                Some(v) => {
                    &&& cseq_contains(old(self)@, name@)
                    &&& (match (v, cseq_get(old(self)@, name@)) {
                        (Some(a), Some(b)) => a@ == b,
                        (None, None) => true,
                        _ => false,
                    })
                    &&& !cseq_contains(final(self)@, name@)
                    &&& final(self)@.len() == old(self)@.len() - 1
                    &&& forall|m: Seq<u8>|
                        m != name@ ==> (#[trigger] cseq_contains(final(self)@, m))
                            == cseq_contains(old(self)@, m)
                    &&& forall|m: Seq<u8>|
                        m != name@ && cseq_contains(old(self)@, m) ==> #[trigger] cseq_get(
                            final(self)@,
                            m,
                        ) == cseq_get(old(self)@, m)
                },
                None => !cseq_contains(old(self)@, name@) && final(self)@ == old(self)@,
            },
    {
        proof {
            lemma_changes_view(self.entries@, self.entries@.len() as int);
        }
        let ghost pre = self@;
        let mut i: usize = 0;
        while i < self.entries.len()
            invariant
                i <= self.entries@.len(),
                self == old(self),
                old(self).wf(),
                pre == self@,
                pre.len() == self.entries@.len(),
                forall|j: int| 0 <= j < pre.len() ==> (#[trigger] pre[j]).0 == self.entries@[j].0@
                    && pre[j].1 == (match self.entries@[j].1 {
                        Some(c) => Some(entry_view(&c)),
                        None => None::<EntryV>,
                    }),
                forall|j: int| 0 <= j < i ==> (#[trigger] self.entries@[j]).0@ != name@,
            decreases self.entries@.len() - i,
        {
            if bytes_eq_exec(&self.entries[i].0.bytes, &name.bytes) {
                proof {
                    assert(pre[i as int].0 == name@);
                }
                let pair = self.entries.remove(i);
                let ghost ii = i as int;
                proof {
                    lemma_changes_view(self.entries@, self.entries@.len() as int);
                    assert(self@ =~= pre.remove(ii));
                    let post = self@;
                    // The binding the definition picks is the removed one.
                    assert(cseq_contains(pre, name@));
                    let w = choose|w: int| 0 <= w < pre.len() && (#[trigger] pre[w]).0 == name@;
                    assert(w == ii) by {
                        if w < ii {
                            assert(pre[w].0 != pre[ii].0);
                        } else if w > ii {
                            assert(pre[ii].0 != pre[w].0);
                        }
                    }
                    assert(cseq_get(pre, name@) == pre[ii].1);
                    assert(cseq_unique(post)) by {
                        assert forall|a: int, b: int| 0 <= a < b < post.len() implies (
                        #[trigger] post[a]).0 != (#[trigger] post[b]).0 by {
                            let a2: int = if a < ii { a } else { a + 1 };
                            let b2: int = if b < ii { b } else { b + 1 };
                            assert(post[a] == pre[a2] && post[b] == pre[b2]);
                            assert(pre[a2].0 != pre[b2].0);
                        }
                    }
                    assert(!cseq_contains(post, name@)) by {
                        if cseq_contains(post, name@) {
                            let k = choose|k: int|
                                0 <= k < post.len() && (#[trigger] post[k]).0 == name@;
                            let k2: int = if k < ii { k } else { k + 1 };
                            assert(pre[k2].0 == name@);
                            assert(pre[k2].0 != pre[ii].0 || k2 == ii);
                        }
                    }
                    assert forall|m: Seq<u8>| m != name@ implies (#[trigger] cseq_contains(
                        post,
                        m,
                    )) == cseq_contains(pre, m) by {
                        if cseq_contains(post, m) {
                            let k = choose|k: int| 0 <= k < post.len() && (#[trigger] post[k]).0 == m;
                            let k2: int = if k < ii { k } else { k + 1 };
                            assert(pre[k2].0 == m);
                        }
                        if cseq_contains(pre, m) {
                            let k = choose|k: int| 0 <= k < pre.len() && (#[trigger] pre[k]).0 == m;
                            assert(k != ii);
                            let k2: int = if k < ii { k } else { k - 1 };
                            assert(post[k2].0 == m);
                        }
                    }
                    assert forall|m: Seq<u8>| m != name@ && cseq_contains(pre, m) implies #[trigger]
                        cseq_get(post, m) == cseq_get(pre, m) by {
                        assert(cseq_contains(post, m));
                        let k1 = choose|k: int| 0 <= k < pre.len() && (#[trigger] pre[k]).0 == m;
                        let k2 = choose|k: int| 0 <= k < post.len() && (#[trigger] post[k]).0 == m;
                        let k3: int = if k2 < ii { k2 } else { k2 + 1 };
                        assert(post[k2] == pre[k3]);
                        assert(k1 == k3) by {
                            if k1 < k3 {
                                assert(pre[k1].0 != pre[k3].0);
                            } else if k1 > k3 {
                                assert(pre[k3].0 != pre[k1].0);
                            }
                        }
                    }
                    assert(changes_wf(post, post.len() as int)) by {
                        lemma_changes_wf_remove(pre, ii);
                    }
                }
                return Some(pair.1);
            }
            i = i + 1;
        }
        proof {
            if cseq_contains(pre, name@) {
                let k = choose|k: int| 0 <= k < pre.len() && (#[trigger] pre[k]).0 == name@;
            }
        }
        None
    }

    /// Bind `name` to `val`, replacing any earlier binding.
    pub fn insert(&mut self, name: MPathElement, val: Option<MemoryManifestEntry>)
        requires
            old(self).wf(),
            name.wf(),
            match val {
                Some(c) => entry_wf(c@),
                None => true,
            },
        ensures
            final(self).wf(),
            cseq_contains(final(self)@, name@),
            cseq_get(final(self)@, name@) == (match val {
                Some(c) => Some(c@),
                None => None::<EntryV>,
            }),
            forall|m: Seq<u8>|
                m != name@ ==> (#[trigger] cseq_contains(final(self)@, m)) == cseq_contains(
                    old(self)@,
                    m,
                ),
            forall|m: Seq<u8>|
                m != name@ && cseq_contains(old(self)@, m) ==> #[trigger] cseq_get(final(self)@, m)
                    == cseq_get(old(self)@, m),
            final(self)@.len() == (if cseq_contains(old(self)@, name@) {
                old(self)@.len()
            } else {
                old(self)@.len() + 1
            }),
    {
        proof {
            lemma_changes_view(self.entries@, self.entries@.len() as int);
        }
        let ghost pre = self@;
        let ghost namev = name@;
        let ghost valv = match &val {
            Some(c) => Some(entry_view(c)),
            None => None::<EntryV>,
        };
        let mut i: usize = 0;
        while i < self.entries.len()
            invariant
                i <= self.entries@.len(),
                self == old(self),
                old(self).wf(),
                namev == name@,
                name.wf(),
                valv == (match val {
                    Some(c) => Some(entry_view(&c)),
                    None => None::<EntryV>,
                }),
                (match val {
                    Some(c) => entry_wf(entry_view(&c)),
                    None => true,
                }),
                pre == self@,
                pre.len() == self.entries@.len(),
                forall|j: int| 0 <= j < pre.len() ==> (#[trigger] pre[j]).0 == self.entries@[j].0@
                    && pre[j].1 == (match self.entries@[j].1 {
                        Some(c) => Some(entry_view(&c)),
                        None => None::<EntryV>,
                    }),
                forall|j: int| 0 <= j < i ==> (#[trigger] self.entries@[j]).0@ != namev,
            decreases self.entries@.len() - i,
        {
            if bytes_eq_exec(&self.entries[i].0.bytes, &name.bytes) {
                proof {
                    assert(pre[i as int].0 == namev);
                }
                self.entries.set(i, (name, val));
                let ghost ii = i as int;
                proof {
                    lemma_changes_view(self.entries@, self.entries@.len() as int);
                    assert(self@ =~= pre.update(ii, (pre[ii].0, valv)));
                    let post = self@;
                    assert(post[ii].0 == namev);
                    assert(cseq_contains(pre, namev));
                    assert(cseq_unique(post)) by {
                        assert forall|a: int, b: int| 0 <= a < b < post.len() implies (
                        #[trigger] post[a]).0 != (#[trigger] post[b]).0 by {
                            assert(post[a].0 == pre[a].0 && post[b].0 == pre[b].0);
                            assert(pre[a].0 != pre[b].0);
                        }
                    }
                    let g = choose|k: int| 0 <= k < post.len() && (#[trigger] post[k]).0 == namev;
                    assert(g == ii) by {
                        if g < ii {
                            assert(post[g].0 != post[ii].0);
                        } else if g > ii {
                            assert(post[ii].0 != post[g].0);
                        }
                    }
                    assert(cseq_get(post, namev) == valv);
                    assert forall|m: Seq<u8>| m != namev implies (#[trigger] cseq_contains(
                        post,
                        m,
                    )) == cseq_contains(pre, m) by {
                        if cseq_contains(post, m) {
                            let k = choose|k: int| 0 <= k < post.len() && (#[trigger] post[k]).0 == m;
                            assert(pre[k].0 == m);
                        }
                        if cseq_contains(pre, m) {
                            let k = choose|k: int| 0 <= k < pre.len() && (#[trigger] pre[k]).0 == m;
                            assert(k != ii);
                            assert(post[k].0 == m);
                        }
                    }
                    assert forall|m: Seq<u8>| m != namev && cseq_contains(pre, m) implies #[trigger]
                        cseq_get(post, m) == cseq_get(pre, m) by {
                        assert(cseq_contains(post, m));
                        let k1 = choose|k: int| 0 <= k < pre.len() && (#[trigger] pre[k]).0 == m;
                        let k2 = choose|k: int| 0 <= k < post.len() && (#[trigger] post[k]).0 == m;
                        assert(k1 == k2) by {
                            assert(pre[k2].0 == m);
                            if k1 < k2 {
                                assert(pre[k1].0 != pre[k2].0);
                            } else if k1 > k2 {
                                assert(pre[k2].0 != pre[k1].0);
                            }
                        }
                        assert(k2 != ii);
                        assert(cseq_get(post, m) == post[k2].1 && post[k2].1 == pre[k1].1);
                    }
                    assert(changes_wf(post, post.len() as int)) by {
                        lemma_changes_wf_update(pre, ii, namev, valv);
                        assert(post =~= pre.update(ii, (namev, valv)));
                    }
                }
                return ;
            }
            i = i + 1;
        }
        let ghost n0 = pre.len() as int;
        self.entries.push((name, val));
        proof {
            lemma_changes_view(self.entries@, self.entries@.len() as int);
            assert(self@ =~= pre.push((namev, valv)));
            let post = self@;
            assert(post[n0].0 == namev);
            assert(!cseq_contains(pre, namev)) by {
                if cseq_contains(pre, namev) {
                    let k = choose|k: int| 0 <= k < pre.len() && (#[trigger] pre[k]).0 == namev;
                }
            }
            assert(cseq_unique(post)) by {
                assert forall|a: int, b: int| 0 <= a < b < post.len() implies (
                #[trigger] post[a]).0 != (#[trigger] post[b]).0 by {
                    if b < n0 {
                        assert(pre[a].0 != pre[b].0);
                    } else {
                        assert(post[b].0 == namev);
                        assert(pre[a].0 != namev);
                    }
                }
            }
            let g = choose|k: int| 0 <= k < post.len() && (#[trigger] post[k]).0 == namev;
            assert(g == n0) by {
                if g < n0 {
                    assert(post[g].0 == pre[g].0);
                    assert(pre[g].0 != namev);
                }
            }
            assert(cseq_get(post, namev) == valv);
            assert forall|m: Seq<u8>| m != namev implies (#[trigger] cseq_contains(post, m))
                == cseq_contains(pre, m) by {
                if cseq_contains(post, m) {
                    let k = choose|k: int| 0 <= k < post.len() && (#[trigger] post[k]).0 == m;
                    assert(k != n0);
                    assert(pre[k].0 == m);
                }
                if cseq_contains(pre, m) {
                    let k = choose|k: int| 0 <= k < pre.len() && (#[trigger] pre[k]).0 == m;
                    assert(post[k].0 == m);
                }
            }
            assert forall|m: Seq<u8>| m != namev && cseq_contains(pre, m) implies #[trigger]
                cseq_get(post, m) == cseq_get(pre, m) by {
                assert(cseq_contains(post, m));
                let k1 = choose|k: int| 0 <= k < pre.len() && (#[trigger] pre[k]).0 == m;
                let k2 = choose|k: int| 0 <= k < post.len() && (#[trigger] post[k]).0 == m;
                assert(k2 != n0);
                assert(pre[k2].0 == m);
                assert(k1 == k2) by {
                    if k1 < k2 {
                        assert(pre[k1].0 != pre[k2].0);
                    } else if k1 > k2 {
                        assert(pre[k2].0 != pre[k1].0);
                    }
                }
            }
            assert(changes_wf(post, post.len() as int)) by {
                lemma_changes_wf_push(pre, namev, valv);
            }
        }
    }
}

proof fn lemma_changes_wf_remove(s: Seq<(Seq<u8>, Option<EntryV>)>, i: int)
    requires
        0 <= i < s.len(),
        changes_wf(s, s.len() as int),
    ensures
        changes_wf(s.remove(i), s.remove(i).len() as int),
{
    let t = s.remove(i);
    assert forall|j: int| 0 <= j < t.len() implies elem_bytes_ok(#[trigger] t[j].0) && (match t[j].1 {
        Some(c) => entry_wf(c),
        None => true,
    }) by {
        if j < i {
            lemma_changes_wf(s, s.len() as int, j);
        } else {
            lemma_changes_wf(s, s.len() as int, j + 1);
        }
    }
    lemma_changes_wf_all(t);
}

proof fn lemma_changes_wf_update(s: Seq<(Seq<u8>, Option<EntryV>)>, i: int, name: Seq<u8>, v: Option<EntryV>)
    requires
        0 <= i < s.len(),
        changes_wf(s, s.len() as int),
        elem_bytes_ok(name),
        match v {
            Some(c) => entry_wf(c),
            None => true,
        },
    ensures
        changes_wf(s.update(i, (name, v)), s.update(i, (name, v)).len() as int),
{
    let t = s.update(i, (name, v));
    assert forall|j: int| 0 <= j < t.len() implies elem_bytes_ok(#[trigger] t[j].0) && (match t[j].1 {
        Some(c) => entry_wf(c),
        None => true,
    }) by {
        if j != i {
            lemma_changes_wf(s, s.len() as int, j);
        }
    }
    lemma_changes_wf_all(t);
}

proof fn lemma_changes_wf_push(s: Seq<(Seq<u8>, Option<EntryV>)>, name: Seq<u8>, v: Option<EntryV>)
    requires
        changes_wf(s, s.len() as int),
        elem_bytes_ok(name),
        match v {
            Some(c) => entry_wf(c),
            None => true,
        },
    ensures
        changes_wf(s.push((name, v)), s.push((name, v)).len() as int),
{
    let t = s.push((name, v));
    assert forall|j: int| 0 <= j < t.len() implies elem_bytes_ok(#[trigger] t[j].0) && (match t[j].1 {
        Some(c) => entry_wf(c),
        None => true,
    }) by {
        if j < s.len() {
            lemma_changes_wf(s, s.len() as int, j);
        }
    }
    lemma_changes_wf_all(t);
}

/// Elementwise well-formedness gives the recursive predicate.
proof fn lemma_changes_wf_all(s: Seq<(Seq<u8>, Option<EntryV>)>)
    requires
        forall|j: int| 0 <= j < s.len() ==> elem_bytes_ok((#[trigger] s[j]).0) && (match s[j].1 {
            Some(c) => entry_wf(c),
            None => true,
        }),
    ensures
        changes_wf(s, s.len() as int),
{
    lemma_changes_wf_all_rec(s, s.len() as int);
}

proof fn lemma_changes_wf_all_rec(s: Seq<(Seq<u8>, Option<EntryV>)>, n: int)
    requires
        n <= s.len(),
        forall|j: int| 0 <= j < s.len() ==> elem_bytes_ok((#[trigger] s[j]).0) && (match s[j].1 {
            Some(c) => entry_wf(c),
            None => true,
        }),
    ensures
        changes_wf(s, n),
    decreases n,
{
    if n > 0 {
        lemma_changes_wf_all_rec(s, n - 1);
    }
}

} // verus!

verus! {

/// A fully materialized child listing: names with their entries, sorted
/// strictly by name.
#[derive(Debug)]
pub struct ChildList {
    pub entries: Vec<(MPathElement, MemoryManifestEntry)>,
}

/// The views of the first `n` child pairs.
pub open spec fn kids_view(s: Seq<(MPathElement, MemoryManifestEntry)>, n: int) -> Seq<
    (Seq<u8>, EntryV),
>
    decreases s, 0int, n,
{
    if n <= 0 || n > s.len() {
        Seq::empty()
    } else {
        kids_view(s, n - 1).push((s[n - 1].0@, entry_view(&s[n - 1].1)))
    }
}

pub proof fn lemma_kids_view(s: Seq<(MPathElement, MemoryManifestEntry)>, n: int)
    requires
        0 <= n <= s.len(),
    ensures
        kids_view(s, n).len() == n,
        forall|i: int|
            0 <= i < n ==> kids_view(s, n)[i] == (s[i].0@, entry_view(&s[i].1)),
    decreases n,
{
    if n > 0 {
        lemma_kids_view(s, n - 1);
    }
}

impl View for ChildList {
    type V = Seq<(Seq<u8>, EntryV)>;

    open spec fn view(&self) -> Seq<(Seq<u8>, EntryV)> {
        kids_view(self.entries@, self.entries@.len() as int)
    }
}

/// The map a child listing holds.
pub open spec fn kids_map(kv: Seq<(Seq<u8>, EntryV)>) -> Map<Seq<u8>, EntryV>
    decreases kv.len(),
{
    if kv.len() == 0 {
        Map::empty()
    } else {
        kids_map(kv.drop_last()).insert(kv.last().0, kv.last().1)
    }
}

pub open spec fn kids_sorted(kv: Seq<(Seq<u8>, EntryV)>) -> bool {
    forall|i: int, j: int|
        0 <= i < j < kv.len() ==> bytes_lt((#[trigger] kv[i]).0, (#[trigger] kv[j]).0)
}

pub proof fn lemma_kids_sorted_unique(kv: Seq<(Seq<u8>, EntryV)>)
    requires
        kids_sorted(kv),
    ensures
        forall|i: int, j: int|
            0 <= i < j < kv.len() ==> (#[trigger] kv[i]).0 != (#[trigger] kv[j]).0,
{
    assert forall|i: int, j: int| 0 <= i < j < kv.len() implies (#[trigger] kv[i]).0 != (
    #[trigger] kv[j]).0 by {
        crate::path::lemma_bytes_lt_trichotomy(kv[i].0, kv[j].0);
    }
}

pub proof fn lemma_kids_map_index(kv: Seq<(Seq<u8>, EntryV)>, i: int)
    requires
        forall|a: int, b: int|
            0 <= a < b < kv.len() ==> (#[trigger] kv[a]).0 != (#[trigger] kv[b]).0,
        0 <= i < kv.len(),
    ensures
        kids_map(kv).dom().contains(kv[i].0),
        kids_map(kv)[kv[i].0] == kv[i].1,
    decreases kv.len(),
{
    if i < kv.len() - 1 {
        lemma_kids_map_index(kv.drop_last(), i);
        assert(kv.drop_last()[i] == kv[i]);
        assert(kv[i].0 != kv[kv.len() - 1].0);
    }
}

pub proof fn lemma_kids_map_dom(kv: Seq<(Seq<u8>, EntryV)>, k: Seq<u8>)
    requires
        kids_map(kv).dom().contains(k),
    ensures
        exists|i: int| 0 <= i < kv.len() && (#[trigger] kv[i]).0 == k,
    decreases kv.len(),
{
    if kv.len() > 0 {
        if kv.last().0 == k {
            assert(kv[kv.len() - 1].0 == k);
        } else {
            lemma_kids_map_dom(kv.drop_last(), k);
            let i = choose|i: int|
                0 <= i < kv.drop_last().len() && (#[trigger] kv.drop_last()[i]).0 == k;
            assert(kv[i].0 == k);
        }
    }
}

pub proof fn lemma_kids_map_finite(kv: Seq<(Seq<u8>, EntryV)>)
    ensures
        kids_map(kv).dom().finite(),
    decreases kv.len(),
{
    if kv.len() > 0 {
        lemma_kids_map_finite(kv.drop_last());
    }
}

impl ChildList {
    pub open spec fn wf(&self) -> bool {
        &&& kids_sorted(self@)
        &&& forall|i: int|
            0 <= i < self@.len() ==> elem_bytes_ok((#[trigger] self@[i]).0) && entry_wf(
                self@[i].1,
            )
    }

    /// An empty listing.
    pub fn new() -> (r: ChildList)
        ensures
            r@ == Seq::<(Seq<u8>, EntryV)>::empty(),
            r.wf(),
    {
        let r = ChildList { entries: Vec::new() };
        proof {
            assert(r@ =~= Seq::<(Seq<u8>, EntryV)>::empty());
        }
        r
    }

    /// The number of children.
    pub fn len(&self) -> (r: usize)
        ensures
            r == self@.len(),
    {
        proof {
            lemma_kids_view(self.entries@, self.entries@.len() as int);
        }
        self.entries.len()
    }

    /// The name and entry at one index, copied out.
    pub fn get_at(&self, i: usize) -> (r: (MPathElement, MemoryManifestEntry))
        requires
            i < self@.len(),
        ensures
            r.0@ == self@[i as int].0,
            r.1@ == self@[i as int].1,
    {
        proof {
            lemma_kids_view(self.entries@, self.entries@.len() as int);
        }
        let pair = &self.entries[i];
        (pair.0.clone(), clone_entry(&pair.1))
    }

    /// Insert a child, replacing any entry of the same name and keeping the
    /// listing sorted.
    pub fn insert(&mut self, name: MPathElement, entry: MemoryManifestEntry)
        requires
            old(self).wf(),
            name.wf(),
            entry_wf(entry@),
        ensures
            final(self).wf(),
            kids_map(final(self)@) == kids_map(old(self)@).insert(name@, entry@),
    {
        proof {
            lemma_kids_view(self.entries@, self.entries@.len() as int);
        }
        let ghost pre = self@;
        let ghost namev = name@;
        let ghost entryv = entry_view(&entry);
        let mut i: usize = 0;
        while i < self.entries.len()
            invariant
                i <= self.entries@.len(),
                self == old(self),
                old(self).wf(),
                namev == name@,
                name.wf(),
                entryv == entry_view(&entry),
                entry_wf(entryv),
                pre == self@,
                pre.len() == self.entries@.len(),
                forall|j: int|
                    0 <= j < pre.len() ==> (#[trigger] pre[j]) == (
                        self.entries@[j].0@,
                        entry_view(&self.entries@[j].1),
                    ),
                forall|j: int| 0 <= j < i ==> bytes_lt((#[trigger] pre[j]).0, namev),
            decreases self.entries@.len() - i,
        {
            let cur_lt = bytes_lt_exec(&self.entries[i].0.bytes, &name.bytes);
            if !cur_lt {
                let eq = bytes_eq_exec(&self.entries[i].0.bytes, &name.bytes);
                let ghost ii = i as int;
                if eq {
                    // Replace in place.
                    self.entries.set(i, (name, entry));
                    proof {
                        lemma_kids_view(self.entries@, self.entries@.len() as int);
                        assert(self@ =~= pre.update(ii, (namev, entryv)));
                        lemma_kids_sorted_unique(pre);
                        assert(kids_sorted(self@)) by {
                            assert forall|a: int, b: int| 0 <= a < b < self@.len() implies bytes_lt(
                                (#[trigger] self@[a]).0,
                                (#[trigger] self@[b]).0,
                            ) by {
                                assert(self@[a].0 == pre[a].0 && self@[b].0 == pre[b].0);
                                assert(bytes_lt(pre[a].0, pre[b].0));
                            }
                        }
                        lemma_kids_sorted_unique(self@);
                        lemma_kids_map_update(pre, self@, ii, namev, entryv);
                    }
                    return ;
                } else {
                    // Insert before the first larger name.
                    self.entries.insert(i, (name, entry));
                    proof {
                        lemma_kids_view(self.entries@, self.entries@.len() as int);
                        assert(self@ =~= pre.insert(ii, (namev, entryv)));
                        crate::path::lemma_bytes_lt_trichotomy(pre[ii].0, namev);
                        assert(bytes_lt(namev, pre[ii].0));
                        assert(kids_sorted(self@)) by {
                            assert forall|a: int, b: int| 0 <= a < b < self@.len() implies bytes_lt(
                                (#[trigger] self@[a]).0,
                                (#[trigger] self@[b]).0,
                            ) by {
                                let pa: int = if a < ii { a } else { a - 1 };
                                let pb: int = if b < ii { b } else { b - 1 };
                                if a == ii {
                                    assert(self@[b].0 == pre[pb].0);
                                    if pb > ii {
                                        assert(bytes_lt(pre[ii].0, pre[pb].0));
                                        crate::path::lemma_bytes_lt_trans(
                                            namev,
                                            pre[ii].0,
                                            pre[pb].0,
                                        );
                                    }
                                } else if b == ii {
                                    assert(self@[a].0 == pre[pa].0);
                                    if pa < ii {
                                        assert(bytes_lt(pre[pa].0, namev));
                                    }
                                } else {
                                    assert(self@[a].0 == pre[pa].0 && self@[b].0 == pre[pb].0);
                                    if pa < pb {
                                        assert(bytes_lt(pre[pa].0, pre[pb].0));
                                    } else {
                                        assert(pa == pb);
                                        assert(pa < ii && pb >= ii);
                                    }
                                }
                            }
                        }
                        lemma_kids_sorted_unique(pre);
                        lemma_kids_sorted_unique(self@);
                        assert forall|a: int| 0 <= a < pre.len() implies (#[trigger] pre[a]).0
                            != namev by {
                            if a < ii {
                                crate::path::lemma_bytes_lt_trichotomy(pre[a].0, namev);
                            } else if a == ii {
                                crate::path::lemma_bytes_lt_trichotomy(namev, pre[ii].0);
                            } else {
                                assert(bytes_lt(pre[ii].0, pre[a].0));
                                crate::path::lemma_bytes_lt_trans(namev, pre[ii].0, pre[a].0);
                                crate::path::lemma_bytes_lt_trichotomy(namev, pre[a].0);
                            }
                        }
                        lemma_kids_map_seq_insert(pre, self@, ii, namev, entryv);
                    }
                    return ;
                }
            }
            i = i + 1;
        }
        let ghost n0 = pre.len() as int;
        self.entries.push((name, entry));
        proof {
            lemma_kids_view(self.entries@, self.entries@.len() as int);
            assert(self@ =~= pre.push((namev, entryv)));
            assert(kids_sorted(self@)) by {
                assert forall|a: int, b: int| 0 <= a < b < self@.len() implies bytes_lt(
                    (#[trigger] self@[a]).0,
                    (#[trigger] self@[b]).0,
                ) by {
                    if b < n0 {
                        assert(self@[a].0 == pre[a].0 && self@[b].0 == pre[b].0);
                        assert(bytes_lt(pre[a].0, pre[b].0));
                    } else {
                        assert(self@[a].0 == pre[a].0);
                        assert(bytes_lt(pre[a].0, namev));
                    }
                }
            }
            assert(self@.drop_last() =~= pre);
            assert(kids_map(self@) == kids_map(pre).insert(namev, entryv));
        }
    }

    /// Remove a child by name, if present.
    pub fn remove(&mut self, name: &MPathElement)
        requires
            old(self).wf(),
        ensures
            final(self).wf(),
            kids_map(final(self)@) == kids_map(old(self)@).remove(name@),
    {
        proof {
            lemma_kids_view(self.entries@, self.entries@.len() as int);
        }
        let ghost pre = self@;
        let mut i: usize = 0;
        while i < self.entries.len()
            invariant
                i <= self.entries@.len(),
                self == old(self),
                old(self).wf(),
                pre == self@,
                pre.len() == self.entries@.len(),
                forall|j: int|
                    0 <= j < pre.len() ==> (#[trigger] pre[j]) == (
                        self.entries@[j].0@,
                        entry_view(&self.entries@[j].1),
                    ),
                forall|j: int| 0 <= j < i ==> (#[trigger] pre[j]).0 != name@,
            decreases self.entries@.len() - i,
        {
            if bytes_eq_exec(&self.entries[i].0.bytes, &name.bytes) {
                let ghost ii = i as int;
                self.entries.remove(i);
                proof {
                    lemma_kids_view(self.entries@, self.entries@.len() as int);
                    assert(self@ =~= pre.remove(ii));
                    assert(pre[ii].0 == name@);
                    assert(kids_sorted(self@)) by {
                        assert forall|a: int, b: int| 0 <= a < b < self@.len() implies bytes_lt(
                            (#[trigger] self@[a]).0,
                            (#[trigger] self@[b]).0,
                        ) by {
                            let pa: int = if a < ii { a } else { a + 1 };
                            let pb: int = if b < ii { b } else { b + 1 };
                            assert(self@[a].0 == pre[pa].0 && self@[b].0 == pre[pb].0);
                            assert(bytes_lt(pre[pa].0, pre[pb].0));
                        }
                    }
                    lemma_kids_sorted_unique(pre);
                    lemma_kids_sorted_unique(self@);
                    lemma_kids_map_seq_remove(pre, self@, ii, name@);
                }
                return ;
            }
            i = i + 1;
        }
        proof {
            lemma_kids_sorted_unique(pre);
            assert(kids_map(pre).remove(name@) =~= kids_map(pre)) by {
                if kids_map(pre).dom().contains(name@) {
                    lemma_kids_map_dom(pre, name@);
                }
            }
        }
    }
}

/// Updating one pair in place updates the map.
proof fn lemma_kids_map_update(
    pre: Seq<(Seq<u8>, EntryV)>,
    post: Seq<(Seq<u8>, EntryV)>,
    i: int,
    name: Seq<u8>,
    entry: EntryV,
)
    requires
        forall|a: int, b: int|
            0 <= a < b < pre.len() ==> (#[trigger] pre[a]).0 != (#[trigger] pre[b]).0,
        0 <= i < pre.len(),
        pre[i].0 == name,
        post == pre.update(i, (name, entry)),
    ensures
        kids_map(post) == kids_map(pre).insert(name, entry),
    decreases pre.len(),
{
    if i == pre.len() - 1 {
        assert(post.drop_last() =~= pre.drop_last());
        assert(kids_map(post) == kids_map(pre.drop_last()).insert(name, entry));
        assert(kids_map(pre) == kids_map(pre.drop_last()).insert(name, pre[i].1));
        assert(kids_map(pre.drop_last()).insert(name, pre[i].1).insert(name, entry)
            =~= kids_map(pre.drop_last()).insert(name, entry));
    } else {
        assert(post.drop_last() =~= pre.drop_last().update(i, (name, entry)));
        lemma_kids_map_update(pre.drop_last(), post.drop_last(), i, name, entry);
        assert(post.last() == pre.last());
        assert(pre.last().0 != name);
        assert(kids_map(post) == kids_map(post.drop_last()).insert(pre.last().0, pre.last().1));
        assert(kids_map(pre.drop_last()).insert(name, entry).insert(pre.last().0, pre.last().1)
            =~= kids_map(pre.drop_last()).insert(pre.last().0, pre.last().1).insert(name, entry));
    }
}

/// Inserting a pair at a position inserts into the map.
proof fn lemma_kids_map_seq_insert(
    pre: Seq<(Seq<u8>, EntryV)>,
    post: Seq<(Seq<u8>, EntryV)>,
    i: int,
    name: Seq<u8>,
    entry: EntryV,
)
    requires
        0 <= i <= pre.len(),
        post == pre.insert(i, (name, entry)),
        forall|a: int| 0 <= a < pre.len() ==> (#[trigger] pre[a]).0 != name,
    ensures
        kids_map(post) == kids_map(pre).insert(name, entry),
    decreases pre.len(),
{
    if i == pre.len() {
        assert(post.drop_last() =~= pre);
        assert(post.last() == (name, entry));
    } else {
        assert(post.drop_last() =~= pre.drop_last().insert(i, (name, entry)));
        lemma_kids_map_seq_insert(pre.drop_last(), post.drop_last(), i, name, entry);
        assert(post.last() == pre.last());
        assert(pre.last().0 != name);
        assert(kids_map(pre.drop_last()).insert(name, entry).insert(pre.last().0, pre.last().1)
            =~= kids_map(pre.drop_last()).insert(pre.last().0, pre.last().1).insert(name, entry));
    }
}

/// Removing the pair that binds a name removes it from the map.
proof fn lemma_kids_map_seq_remove(
    pre: Seq<(Seq<u8>, EntryV)>,
    post: Seq<(Seq<u8>, EntryV)>,
    i: int,
    name: Seq<u8>,
)
    requires
        forall|a: int, b: int|
            0 <= a < b < pre.len() ==> (#[trigger] pre[a]).0 != (#[trigger] pre[b]).0,
        0 <= i < pre.len(),
        pre[i].0 == name,
        post == pre.remove(i),
    ensures
        kids_map(post) == kids_map(pre).remove(name),
    decreases pre.len(),
{
    if i == pre.len() - 1 {
        assert(post =~= pre.drop_last());
        assert(kids_map(pre) == kids_map(post).insert(name, pre[i].1));
        assert(!kids_map(post).dom().contains(name)) by {
            if kids_map(post).dom().contains(name) {
                lemma_kids_map_dom(post, name);
                let k = choose|k: int| 0 <= k < post.len() && (#[trigger] post[k]).0 == name;
                assert(pre[k].0 == name);
            }
        }
        assert(kids_map(post).insert(name, pre[i].1).remove(name) =~= kids_map(post));
    } else {
        assert(post.drop_last() =~= pre.drop_last().remove(i));
        lemma_kids_map_seq_remove(pre.drop_last(), post.drop_last(), i, name);
        assert(post.last() == pre.last());
        assert(pre.last().0 != name);
        assert(kids_map(pre.drop_last()).remove(name).insert(pre.last().0, pre.last().1)
            =~= kids_map(pre.drop_last()).insert(pre.last().0, pre.last().1).remove(name));
    }
}

} // verus!

verus! {

/// What a persisted listing entry becomes in memory: subtrees become fresh
/// overlay nodes whose baseline and first parent are the persisted hash;
/// anything else becomes a leaf.
pub open spec fn conv_v(le: crate::codec::ListingEntryV) -> EntryV {
    if le.kind == EntryKind::Tree {
        EntryV::MemTree {
            base: Some(le.hash),
            p1: Some(le.hash),
            p2: None,
            changes: Seq::empty(),
        }
    } else {
        EntryV::Blob(BlobEntryV { name: Some(le.name), hash: le.hash, kind: le.kind })
    }
}

/// The children a persisted listing provides, as a map.
pub open spec fn listing_map(l: Seq<crate::codec::ListingEntryV>) -> Map<Seq<u8>, EntryV>
    decreases l.len(),
{
    if l.len() == 0 {
        Map::empty()
    } else {
        listing_map(l.drop_last()).insert(l.last().name, conv_v(l.last()))
    }
}

/// Changes applied on top of baseline children: a name mapped to `None` is
/// removed, a name mapped to an entry is replaced or added.
pub open spec fn apply_changes_v(m: Map<Seq<u8>, EntryV>, s: Seq<(Seq<u8>, Option<EntryV>)>) -> Map<
    Seq<u8>,
    EntryV,
>
    decreases s.len(),
{
    if s.len() == 0 {
        m
    } else {
        let m2 = apply_changes_v(m, s.drop_last());
        match s.last().1 {
            None => m2.remove(s.last().0),
            Some(c) => m2.insert(s.last().0, c),
        }
    }
}

/// The full current logical content of a node under a store: the baseline
/// listing (loaded from the store) with the changes applied on top. `None`
/// exactly when the baseline hash does not resolve. Non-tree nodes have no
/// children.
pub open spec fn children_of(ev: EntryV, v: Map<u64, Seq<u8>>) -> Option<Map<Seq<u8>, EntryV>> {
    match ev {
        EntryV::MemTree { base, changes, .. } => match base {
            None => Some(apply_changes_v(Map::empty(), changes)),
            Some(h) => if v.dom().contains(h) {
                match crate::codec::decode_listing(v[h]) {
                    Some(l) => Some(apply_changes_v(listing_map(l), changes)),
                    None => None,
                }
            } else {
                None
            },
        },
        _ => Some(Map::<Seq<u8>, EntryV>::empty()),
    }
}

/// Every value of an applied-changes map comes either from a change binding
/// or untouched from the underlying map.
pub proof fn lemma_apply_changes_val(
    m: Map<Seq<u8>, EntryV>,
    s: Seq<(Seq<u8>, Option<EntryV>)>,
    n: Seq<u8>,
)
    requires
        apply_changes_v(m, s).dom().contains(n),
    ensures
        (exists|i: int|
            0 <= i < s.len() && (#[trigger] s[i]).0 == n && s[i].1 == Some(
                apply_changes_v(m, s)[n],
            )) || (m.dom().contains(n) && apply_changes_v(m, s)[n] == m[n]),
    decreases s.len(),
{
    if s.len() > 0 {
        let prev = apply_changes_v(m, s.drop_last());
        match s.last().1 {
            None => {
                assert(s.last().0 != n);
                lemma_apply_changes_val(m, s.drop_last(), n);
                if exists|i: int|
                    0 <= i < s.drop_last().len() && (#[trigger] s.drop_last()[i]).0 == n
                        && s.drop_last()[i].1 == Some(prev[n]) {
                    let i = choose|i: int|
                        0 <= i < s.drop_last().len() && (#[trigger] s.drop_last()[i]).0 == n
                            && s.drop_last()[i].1 == Some(prev[n]);
                    assert(s[i].0 == n && s[i].1 == Some(apply_changes_v(m, s)[n]));
                }
            },
            Some(c) => {
                if s.last().0 == n {
                    assert(s[s.len() - 1].0 == n && s[s.len() - 1].1 == Some(
                        apply_changes_v(m, s)[n],
                    ));
                } else {
                    lemma_apply_changes_val(m, s.drop_last(), n);
                    if exists|i: int|
                        0 <= i < s.drop_last().len() && (#[trigger] s.drop_last()[i]).0 == n
                            && s.drop_last()[i].1 == Some(prev[n]) {
                        let i = choose|i: int|
                            0 <= i < s.drop_last().len() && (#[trigger] s.drop_last()[i]).0 == n
                                && s.drop_last()[i].1 == Some(prev[n]);
                        assert(s[i].0 == n && s[i].1 == Some(apply_changes_v(m, s)[n]));
                    }
                }
            },
        }
    }
}

/// Every value of a listing map is the conversion of a listing entry.
pub proof fn lemma_listing_map_val(l: Seq<crate::codec::ListingEntryV>, n: Seq<u8>)
    requires
        listing_map(l).dom().contains(n),
    ensures
        exists|i: int|
            0 <= i < l.len() && (#[trigger] l[i]).name == n && listing_map(l)[n] == conv_v(l[i]),
    decreases l.len(),
{
    if l.len() > 0 {
        if l.last().name == n && listing_map(l)[n] == conv_v(l.last()) {
            assert(l[l.len() - 1].name == n && listing_map(l)[n] == conv_v(l[l.len() - 1]));
        } else {
            lemma_listing_map_val(l.drop_last(), n);
            let i = choose|i: int|
                0 <= i < l.drop_last().len() && (#[trigger] l.drop_last()[i]).name == n
                    && listing_map(l.drop_last())[n] == conv_v(l.drop_last()[i]);
            assert(l[i].name == n && listing_map(l)[n] == conv_v(l[i]));
        }
    }
}

/// Each materialized child sits strictly below its node in the recursion
/// measure: a child taken from the changes is structurally shallower, and a
/// child loaded from the baseline listing carries a strictly smaller
/// baseline, because a well-formed store only refers downwards.
pub proof fn lemma_children_measure(ev: EntryV, v: Map<u64, Seq<u8>>, n: Seq<u8>)
    requires
        crate::store::store_wf(v),
        ev is MemTree,
        children_of(ev, v) is Some,
        children_of(ev, v).unwrap().dom().contains(n),
    ensures
        measure_lt(children_of(ev, v).unwrap()[n], ev),
{
    let changes = ev->MemTree_changes;
    let base = ev->MemTree_base;
    let m = children_of(ev, v).unwrap();
    let base_map: Map<Seq<u8>, EntryV> = match base {
        None => Map::empty(),
        Some(h) => listing_map(crate::codec::decode_listing(v[h]).unwrap()),
    };
    lemma_apply_changes_val(base_map, changes, n);
    if exists|i: int|
        0 <= i < changes.len() && (#[trigger] changes[i]).0 == n && changes[i].1 == Some(m[n]) {
        let i = choose|i: int|
            0 <= i < changes.len() && (#[trigger] changes[i]).0 == n && changes[i].1 == Some(
                m[n],
            );
        lemma_change_value_measure(ev, i);
    } else {
        let h = base->0;
        assert(v.dom().contains(h));
        let l = crate::codec::decode_listing(v[h]).unwrap();
        lemma_listing_map_val(l, n);
        let i = choose|i: int|
            0 <= i < l.len() && (#[trigger] l[i]).name == n && listing_map(l)[n] == conv_v(l[i]);
        assert(max_base_v(ev) >= h);
        if l[i].kind == EntryKind::Tree {
            assert(l[i].hash < h);
            assert(max_base_v(conv_v(l[i])) == l[i].hash);
            assert(depth_v(conv_v(l[i])) == 1);
        } else {
            assert(max_base_v(conv_v(l[i])) == 0);
            assert(h >= 1);
        }
    }
}

/// Materialized children of a well-formed node are well-formed entries under
/// well-formed names.
pub proof fn lemma_children_wf(ev: EntryV, v: Map<u64, Seq<u8>>, n: Seq<u8>)
    requires
        crate::store::store_wf(v),
        entry_wf(ev),
        ev is MemTree,
        children_of(ev, v) is Some,
        children_of(ev, v).unwrap().dom().contains(n),
    ensures
        entry_wf(children_of(ev, v).unwrap()[n]),
        elem_bytes_ok(n),
{
    let changes = ev->MemTree_changes;
    let base = ev->MemTree_base;
    let m = children_of(ev, v).unwrap();
    let base_map: Map<Seq<u8>, EntryV> = match base {
        None => Map::empty(),
        Some(h) => listing_map(crate::codec::decode_listing(v[h]).unwrap()),
    };
    lemma_apply_changes_val(base_map, changes, n);
    if exists|i: int|
        0 <= i < changes.len() && (#[trigger] changes[i]).0 == n && changes[i].1 == Some(m[n]) {
        let i = choose|i: int|
            0 <= i < changes.len() && (#[trigger] changes[i]).0 == n && changes[i].1 == Some(
                m[n],
            );
        lemma_changes_wf(changes, changes.len() as int, i);
    } else {
        let h = base->0;
        let l = crate::codec::decode_listing(v[h]).unwrap();
        lemma_listing_map_val(l, n);
        let i = choose|i: int|
            0 <= i < l.len() && (#[trigger] l[i]).name == n && listing_map(l)[n] == conv_v(l[i]);
        crate::codec::lemma_decode_names_wf(v[h]);
        assert(elem_bytes_ok(l[i].name));
        if l[i].kind == EntryKind::Tree {
            assert(entry_wf(conv_v(l[i]))) by {
                let c = conv_v(l[i]);
                assert(changes_wf(c->MemTree_changes, 0));
            }
        }
    }
}

/// A node is modified when it has no baseline or carries changes; only such
/// nodes need a fresh write on save.
pub open spec fn is_modified_v(ev: EntryV) -> bool {
    match ev {
        EntryV::MemTree { base, changes, .. } => base is None || changes.len() > 0,
        _ => false,
    }
}

/// Children loaded from a baseline listing are unmodified.
pub proof fn lemma_loaded_children_unmodified(ev: EntryV, v: Map<u64, Seq<u8>>, n: Seq<u8>)
    requires
        crate::store::store_wf(v),
        ev is MemTree,
        ev->MemTree_changes.len() == 0,
        children_of(ev, v) is Some,
        children_of(ev, v).unwrap().dom().contains(n),
    ensures
        !is_modified_v(children_of(ev, v).unwrap()[n]),
{
    let changes = ev->MemTree_changes;
    let base = ev->MemTree_base;
    let m = children_of(ev, v).unwrap();
    let base_map: Map<Seq<u8>, EntryV> = match base {
        None => Map::empty(),
        Some(h) => listing_map(crate::codec::decode_listing(v[h]).unwrap()),
    };
    lemma_apply_changes_val(base_map, changes, n);
    let h = base->0;
    let l = crate::codec::decode_listing(v[h]).unwrap();
    lemma_listing_map_val(l, n);
}

impl MemoryManifestEntry {
    /// The current name-to-entry mapping of this node: the baseline listing
    /// (if any) with the changes applied on top. Read-only on the store, and
    /// the single place where persisted data enters the overlay.
    pub fn get_new_children<S: crate::store::Blobstore>(&self, store: &mut S) -> (r: Result<
        ChildList,
        ErrorKind,
    >)
        requires
            crate::store::store_wf(old(store).view()),
            entry_wf(self@),
        ensures
            final(store).view() == old(store).view(),
            match r {
                Ok(kids) => {
                    &&& children_of(self@, old(store).view()) == Some(kids_map(kids@))
                    &&& kids.wf()
                },
                Err(e) => {
                    &&& children_of(self@, old(store).view()) is None
                    &&& self@ is MemTree
                    &&& e == ErrorKind::ManifestMissing(self@->MemTree_base->0)
                },
            },
    {
        match self {
            MemoryManifestEntry::MemTree { base_manifest_id, changes, .. } => {
                let ghost sv = old(store).view();
                let mut kids = ChildList::new();
                let ghost base_map: Map<Seq<u8>, EntryV> = Map::empty();
                if let Some(h) = base_manifest_id {
                    match store.get(*h) {
                        None => {
                            return Err(ErrorKind::ManifestMissing(*h));
                        },
                        Some(bytes) => {
                            match crate::codec::parse_listing(&bytes) {
                                None => {
                                    proof {
                                        assert(crate::codec::decode_listing(sv[*h]) is Some);
                                    }
                                    // A well-formed store never holds bytes
                                    // that do not decode.
                                    unreached()
                                },
                                Some(listing) => {
                                    let ghost lv = crate::codec::listing_view(listing@);
                                    proof {
                                        crate::codec::lemma_decode_names_wf(sv[*h]);
                                    }
                                    let mut i: usize = 0;
                                    while i < listing.len()
                                        invariant
                                            i <= listing@.len(),
                                            lv == crate::codec::listing_view(listing@),
                                            forall|j: int|
                                                0 <= j < lv.len() ==> elem_bytes_ok(
                                                    (#[trigger] lv[j]).name,
                                                ),
                                            kids.wf(),
                                            kids_map(kids@) == listing_map(lv.take(i as int)),
                                        decreases listing@.len() - i,
                                    {
                                        let le = &listing[i];
                                        proof {
                                            assert(le@ == lv[i as int]);
                                        }
                                        let child = if le.kind == EntryKind::Tree {
                                            MemoryManifestEntry::MemTree {
                                                base_manifest_id: Some(le.hash),
                                                p1: Some(le.hash),
                                                p2: None,
                                                changes: ChangeMap::new(),
                                            }
                                        } else {
                                            MemoryManifestEntry::Blob(
                                                HgBlobEntry {
                                                    name: Some(le.name.clone()),
                                                    hash: le.hash,
                                                    kind: le.kind,
                                                },
                                            )
                                        };
                                        proof {
                                            assert(entry_view(&child) =~= conv_v(lv[i as int]))
                                                by {
                                                if le.kind == EntryKind::Tree {
                                                    assert(changes_view(
                                                        Seq::<
                                                            (
                                                                MPathElement,
                                                                Option<MemoryManifestEntry>,
                                                            ),
                                                        >::empty(),
                                                        0,
                                                    ) =~= Seq::<(Seq<u8>, Option<EntryV>)>::empty());
                                                }
                                            }
                                            assert(entry_wf(conv_v(lv[i as int]))) by {
                                                if le.kind == EntryKind::Tree {
                                                    let c = conv_v(lv[i as int]);
                                                    assert(changes_wf(c->MemTree_changes, 0));
                                                }
                                            }
                                        }
                                        kids.insert(le.name.clone(), child);
                                        proof {
                                            assert(lv.take(i + 1 as int).drop_last() =~= lv.take(
                                                i as int,
                                            ));
                                            assert(lv.take(i + 1 as int).last() == lv[i as int]);
                                        }
                                        i = i + 1;
                                    }
                                    proof {
                                        assert(lv.take(listing@.len() as int) =~= lv);
                                        base_map = listing_map(lv);
                                    }
                                },
                            }
                        },
                    }
                }
                // Apply the changes on top of the baseline children.
                let ghost cv = changes@;
                let n = changes.len();
                let mut j: usize = 0;
                proof {
                    assert(apply_changes_v(base_map, cv.take(0)) =~= base_map);
                    assert(children_of(self@, sv) == Some(apply_changes_v(base_map, cv)));
                }
                while j < n
                    invariant
                        j <= n,
                        n == cv.len(),
                        cv == changes@,
                        changes.wf(),
                        changes_wf(cv, cv.len() as int),
                        kids.wf(),
                        kids_map(kids@) == apply_changes_v(base_map, cv.take(j as int)),
                    decreases n - j,
                {
                    let (name, val) = changes.get_at(j);
                    proof {
                        lemma_changes_wf(cv, cv.len() as int, j as int);
                        assert(cv.take(j + 1 as int).drop_last() =~= cv.take(j as int));
                        assert(cv.take(j + 1 as int).last() == cv[j as int]);
                    }
                    match val {
                        None => {
                            kids.remove(&name);
                        },
                        Some(c) => {
                            proof {
                                assert(entry_view(&c) == cv[j as int].1->0);
                            }
                            kids.insert(name, c);
                        },
                    }
                    j = j + 1;
                }
                proof {
                    assert(cv.take(n as int) =~= cv);
                }
                Ok(kids)
            },
            _ => {
                let kids = ChildList::new();
                proof {
                    assert(children_of(self@, old(store).view()) == Some(
                        Map::<Seq<u8>, EntryV>::empty(),
                    ));
                    assert(kids_map(kids@) =~= Map::<Seq<u8>, EntryV>::empty());
                }
                Ok(kids)
            },
        }
    }
}

} // verus!

verus! {

/// Whether an unresolved conflict sits anywhere in the in-memory part of an
/// entry. Conflicts never live in the store, so this covers every conflict a
/// save could meet.
pub open spec fn has_conflict(ev: EntryV) -> bool
    decreases ev, 1int,
{
    match ev {
        EntryV::Blob(_) => false,
        EntryV::Conflict(_) => true,
        EntryV::MemTree { changes, .. } => cseq_has_conflict(changes, changes.len() as int),
    }
}

pub open spec fn cseq_has_conflict(s: Seq<(Seq<u8>, Option<EntryV>)>, n: int) -> bool
    decreases s, 0int, n,
{
    if n <= 0 || n > s.len() {
        false
    } else {
        (match s[n - 1].1 {
            Some(c) => has_conflict(c),
            None => false,
        }) || cseq_has_conflict(s, n - 1)
    }
}

pub proof fn lemma_cseq_has_conflict(s: Seq<(Seq<u8>, Option<EntryV>)>, n: int)
    requires
        0 <= n <= s.len(),
    ensures
        cseq_has_conflict(s, n) <==> exists|i: int|
            0 <= i < n && (#[trigger] s[i]).1 is Some && has_conflict(s[i].1->0),
    decreases n,
{
    if n > 0 {
        lemma_cseq_has_conflict(s, n - 1);
        if cseq_has_conflict(s, n) {
            if match s[n - 1].1 {
                Some(c) => has_conflict(c),
                None => false,
            } {
                assert(s[n - 1].1 is Some && has_conflict(s[n - 1].1->0));
            }
        }
    }
}

/// With unique names, a `Some` binding survives the application of the whole
/// change sequence.
proof fn lemma_apply_changes_binding(
    m: Map<Seq<u8>, EntryV>,
    s: Seq<(Seq<u8>, Option<EntryV>)>,
    i: int,
)
    requires
        forall|a: int, b: int|
            0 <= a < b < s.len() ==> (#[trigger] s[a]).0 != (#[trigger] s[b]).0,
        0 <= i < s.len(),
        s[i].1 is Some,
    ensures
        apply_changes_v(m, s).dom().contains(s[i].0),
        apply_changes_v(m, s)[s[i].0] == s[i].1->0,
    decreases s.len(),
{
    if i == s.len() - 1 {
    } else {
        lemma_apply_changes_binding(m, s.drop_last(), i);
        assert(s.drop_last()[i] == s[i]);
        assert(s[i].0 != s.last().0);
    }
}

/// A node with a conflict below it has a materialized child with a conflict.
proof fn lemma_has_conflict_child(ev: EntryV, v: Map<u64, Seq<u8>>)
    requires
        entry_wf(ev),
        has_conflict(ev),
        ev is MemTree,
        children_of(ev, v) is Some,
    ensures
        exists|n: Seq<u8>|
            children_of(ev, v).unwrap().dom().contains(n) && has_conflict(
                #[trigger] children_of(ev, v).unwrap()[n],
            ),
{
    let changes = ev->MemTree_changes;
    let m = children_of(ev, v).unwrap();
    lemma_cseq_has_conflict(changes, changes.len() as int);
    let i = choose|i: int|
        0 <= i < changes.len() && (#[trigger] changes[i]).1 is Some && has_conflict(
            changes[i].1->0,
        );
    let base = ev->MemTree_base;
    let base_map: Map<Seq<u8>, EntryV> = match base {
        None => Map::empty(),
        Some(h) => listing_map(crate::codec::decode_listing(v[h]).unwrap()),
    };
    lemma_apply_changes_binding(base_map, changes, i);
    assert(m.dom().contains(changes[i].0) && has_conflict(m[changes[i].0]));
}

impl MemoryManifestEntry {
    /// True only for a tree whose fully materialized children are all empty
    /// themselves; a leaf or a conflict is never empty. This makes "is this
    /// directory empty after deletions" observable without a save.
    pub fn is_empty<S: crate::store::Blobstore>(&self, store: &mut S) -> (r: Result<
        bool,
        ErrorKind,
    >)
        requires
            crate::store::store_wf(old(store).view()),
            entry_wf(self@),
        ensures
            final(store).view() == old(store).view(),
            !(self@ is MemTree) ==> r == Ok::<bool, ErrorKind>(false),
            r is Ok ==> children_of(self@, old(store).view()) is Some,
            (self@ is MemTree && children_of(self@, old(store).view()) is None) ==> r is Err,
            children_of(self@, old(store).view()) == Some(Map::<Seq<u8>, EntryV>::empty()) && self@
                is MemTree ==> r == Ok::<bool, ErrorKind>(true),
            has_conflict(self@) ==> r != Ok::<bool, ErrorKind>(true),
            match is_empty_of(self@, old(store).view()) {
                Some(b) => r == Ok::<bool, ErrorKind>(b),
                None => r is Err,
            },
            r matches Err(e) ==> e matches ErrorKind::ManifestMissing(_),
            (r is Ok && self@ is MemTree && self@->MemTree_base is Some) ==> old(
                store,
            ).view().dom().contains(self@->MemTree_base->0),
        decreases max_base_v(self@), depth_v(self@),
    {
        let ghost sv = old(store).view();
        match self {
            MemoryManifestEntry::MemTree { .. } => {
                let kids = match self.get_new_children(store) {
                    Ok(kids) => kids,
                    Err(e) => {
                        return Err(e);
                    },
                };
                let ghost m = kids_map(kids@);
                proof {
                    lemma_kids_sorted_unique(kids@);
                    if has_conflict(self@) {
                        lemma_has_conflict_child(self@, sv);
                        let cn = choose|n: Seq<u8>|
                            m.dom().contains(n) && has_conflict(#[trigger] m[n]);
                        lemma_kids_map_dom(kids@, cn);
                        let ci = choose|ci: int|
                            0 <= ci < kids@.len() && (#[trigger] kids@[ci]).0 == cn;
                        lemma_kids_map_index(kids@, ci);
                        assert(has_conflict(kids@[ci].1));
                    }
                }
                let mut all_empty = true;
                let n = kids.len();
                proof {
                    if children_of(self@, sv) == Some(Map::<Seq<u8>, EntryV>::empty())
                        && kids@.len() > 0 {
                        lemma_kids_sorted_unique(kids@);
                        lemma_kids_map_index(kids@, 0);
                    }
                }
                let mut i: usize = 0;
                while i < n
                    invariant
                        i <= n,
                        n == kids@.len(),
                        kids.wf(),
                        sv == old(store).view(),
                        crate::store::store_wf(sv),
                        entry_wf(self@),
                        children_of(self@, sv) == Some(kids_map(kids@)),
                        children_of(self@, sv) == Some(Map::<Seq<u8>, EntryV>::empty()) ==> n
                            == 0,
                        i == 0 ==> all_empty,
                        store.view() == sv,
                        forall|j: int|
                            0 <= j < i ==> is_empty_of((#[trigger] kids@[j]).1, sv) is Some,
                        all_empty == (forall|j: int|
                            0 <= j < i ==> is_empty_of((#[trigger] kids@[j]).1, sv) == Some(
                                true,
                            )),
                        has_conflict(self@) ==> (!all_empty || exists|j: int|
                            i <= j < n && has_conflict((#[trigger] kids@[j]).1)),
                    decreases n - i,
                {
                    let (name, child) = kids.get_at(i);
                    proof {
                        lemma_kids_sorted_unique(kids@);
                        lemma_kids_map_index(kids@, i as int);
                        lemma_children_measure(self@, sv, kids@[i as int].0);
                        lemma_children_wf(self@, sv, kids@[i as int].0);
                    }
                    let e = match child.is_empty(store) {
                        Ok(e) => e,
                        Err(e) => {
                            proof {
                                let m = kids_map(kids@);
                                assert(is_empty_of(kids@[i as int].1, sv) is None);
                                assert(m.dom().contains(kids@[i as int].0) && is_empty_of(
                                    m[kids@[i as int].0],
                                    sv,
                                ) is None);
                                assert(is_empty_of(self@, sv) is None);
                            }
                            return Err(e);
                        },
                    };
                    proof {
                        assert(is_empty_of(kids@[i as int].1, sv) == Some(e));
                    }
                    let ghost old_all = all_empty;
                    if !e {
                        all_empty = false;
                    }
                    proof {
                        if e {
                            assert(all_empty == (forall|j: int|
                                0 <= j < i + 1 ==> is_empty_of((#[trigger] kids@[j]).1, sv)
                                    == Some(true))) by {
                                if all_empty {
                                    assert forall|j: int| 0 <= j < i + 1 implies is_empty_of(
                                        (#[trigger] kids@[j]).1,
                                        sv,
                                    ) == Some(true) by {}
                                } else {
                                    let w = choose|j: int|
                                        0 <= j < i && is_empty_of((#[trigger] kids@[j]).1, sv)
                                            != Some(true);
                                }
                            }
                        } else {
                            assert(is_empty_of(kids@[i as int].1, sv) != Some(true));
                        }
                        if has_conflict(self@) && all_empty {
                            let j = choose|j: int|
                                i <= j < n && has_conflict((#[trigger] kids@[j]).1);
                            assert(j != i);
                            assert(i + 1 <= j < n && has_conflict(kids@[j].1));
                        }
                    }
                    i = i + 1;
                }
                proof {
                    let m = kids_map(kids@);
                    lemma_kids_sorted_unique(kids@);
                    assert forall|nm: Seq<u8>| #[trigger] m.dom().contains(nm) implies
                        is_empty_of(m[nm], sv) is Some by {
                        lemma_kids_map_dom(kids@, nm);
                        let j = choose|j: int|
                            0 <= j < kids@.len() && (#[trigger] kids@[j]).0 == nm;
                        lemma_kids_map_index(kids@, j);
                    }
                    if all_empty {
                        assert forall|nm: Seq<u8>| #[trigger] m.dom().contains(nm) implies
                            is_empty_of(m[nm], sv) == Some(true) by {
                            lemma_kids_map_dom(kids@, nm);
                            let j = choose|j: int|
                                0 <= j < kids@.len() && (#[trigger] kids@[j]).0 == nm;
                            lemma_kids_map_index(kids@, j);
                        }
                        assert(is_empty_of(self@, sv) == Some(true));
                    } else {
                        let w = choose|j: int|
                            0 <= j < n && is_empty_of((#[trigger] kids@[j]).1, sv) != Some(
                                true,
                            );
                        lemma_kids_map_index(kids@, w);
                        assert(m.dom().contains(kids@[w].0) && is_empty_of(m[kids@[w].0], sv)
                            != Some(true));
                        assert(is_empty_of(self@, sv) == Some(false));
                    }
                }
                Ok(all_empty)
            },
            _ => Ok(false),
        }
    }
}

} // verus!

verus! {

/// Whether the emptiness of every materialized child of `ev` is decided
/// under `v`: all the loads that pruning needs succeed.
pub open spec fn children_emptiness_defined(ev: EntryV, v: Map<u64, Seq<u8>>) -> bool {
    match children_of(ev, v) {
        Some(m) => forall|n: Seq<u8>|
            #[trigger] m.dom().contains(n) ==> is_empty_of(m[n], v) is Some,
        None => true,
    }
}

/// What a saved listing says about the materialized children it came from:
/// exactly the non-empty children appear, sorted strictly by name; a leaf
/// child keeps its hash and kind; a subtree child is recorded as a tree, an
/// unmodified one under its own baseline hash.
pub open spec fn saved_listing_matches(
    l: Seq<crate::codec::ListingEntryV>,
    m: Map<Seq<u8>, EntryV>,
    v: Map<u64, Seq<u8>>,
) -> bool {
    &&& forall|k1: int, k2: int|
        0 <= k1 < k2 < l.len() ==> bytes_lt((#[trigger] l[k1]).name, (#[trigger] l[k2]).name)
    &&& forall|k: int|
        0 <= k < l.len() ==> m.dom().contains((#[trigger] l[k]).name) && is_empty_of(
            m[l[k].name],
            v,
        ) == Some(false)
    &&& forall|n: Seq<u8>|
        m.dom().contains(n) && is_empty_of(#[trigger] m[n], v) == Some(false) ==> exists|k: int|
            0 <= k < l.len() && (#[trigger] l[k]).name == n
    &&& forall|k: int|
        0 <= k < l.len() ==> (m[(#[trigger] l[k]).name] matches EntryV::Blob(b) ==> l[k].hash
            == b.hash && l[k].kind == b.kind)
    &&& forall|k: int|
        0 <= k < l.len() ==> ((m[(#[trigger] l[k]).name] is MemTree) ==> l[k].kind
            == EntryKind::Tree)
    &&& forall|k: int|
        0 <= k < l.len() ==> ((m[(#[trigger] l[k]).name] is MemTree && !is_modified_v(
            m[l[k].name],
        )) ==> l[k].hash == m[l[k].name]->MemTree_base->0)
}

impl MemoryManifestEntry {
    /// True if there has been any modification to self; false for anything
    /// but a tree, and for a tree with a baseline and no changes.
    pub fn is_modified(&self) -> (r: bool)
        ensures
            r == is_modified_v(self@),
    {
        match self {
            MemoryManifestEntry::MemTree { base_manifest_id, changes, .. } => {
                proof {
                    lemma_changes_view(changes.entries@, changes.entries@.len() as int);
                }
                base_manifest_id.is_none() || changes.entries.len() > 0
            },
            _ => false,
        }
    }

    /// True if this entry is a tree, false otherwise.
    pub fn is_dir(&self) -> (r: bool)
        ensures
            r == (self@ is MemTree),
    {
        match self {
            MemoryManifestEntry::MemTree { .. } => true,
            _ => false,
        }
    }

    /// An empty tree: no baseline, no parents, no changes.
    pub fn empty_tree() -> (r: MemoryManifestEntry)
        ensures
            r@ == (EntryV::MemTree {
                base: None,
                p1: None,
                p2: None,
                changes: Seq::<(Seq<u8>, Option<EntryV>)>::empty(),
            }),
            entry_wf(r@),
    {
        let r = MemoryManifestEntry::MemTree {
            base_manifest_id: None,
            p1: None,
            p2: None,
            changes: ChangeMap::new(),
        };
        proof {
            assert(r@->MemTree_changes =~= Seq::<(Seq<u8>, Option<EntryV>)>::empty());
        }
        r
    }

    /// Wrap a persisted tree hash as an overlay node: the hash is both the
    /// baseline and the first parent.
    pub fn convert_treenode(manifest_id: u64) -> (r: MemoryManifestEntry)
        ensures
            r@ == (EntryV::MemTree {
                base: Some(manifest_id),
                p1: Some(manifest_id),
                p2: None,
                changes: Seq::<(Seq<u8>, Option<EntryV>)>::empty(),
            }),
            entry_wf(r@),
            !is_modified_v(r@),
    {
        let r = MemoryManifestEntry::MemTree {
            base_manifest_id: Some(manifest_id),
            p1: Some(manifest_id),
            p2: None,
            changes: ChangeMap::new(),
        };
        proof {
            assert(r@->MemTree_changes =~= Seq::<(Seq<u8>, Option<EntryV>)>::empty());
        }
        r
    }

    /// Save this subtree to the blobstore, bottom-up, and return the entry a
    /// parent listing would record for it.
    ///
    /// A leaf is already persisted and comes back as it is; a conflict
    /// refuses to save; an unmodified tree comes back as a reference to its
    /// baseline hash, without any store write; a modified tree materializes
    /// its children, drops the empty ones, saves the rest recursively, and
    /// writes one canonical listing.
    ///
    /// Dropping empty children deliberately reads each child's listing, even
    /// an unaddressed sibling's: whether a directory emptied out is a fact
    /// about the store, so pruning cannot be decided from the overlay alone.
    /// Only path navigation is lazy; a save pays for the subtree it writes.
    #[verifier::spinoff_prover]
    #[verifier::rlimit(100)]
    pub fn save<S: crate::store::Blobstore>(&self, store: &mut S, path: &crate::path::RepoPath) -> (r:
        Result<HgBlobEntry, ErrorKind>)
        requires
            crate::store::store_wf(old(store).view()),
            entry_wf(self@),
            path.wf(),
            !(path is FilePath),
        ensures
            crate::store::store_wf(final(store).view()),
            crate::store::store_grows(old(store).view(), final(store).view()),
            has_conflict(self@) ==> r is Err,
            self@ is Conflict ==> r == Err::<HgBlobEntry, ErrorKind>(
                ErrorKind::UnresolvedConflicts,
            ) && final(store).view() == old(store).view(),
            (self@ is Blob) ==> (r matches Ok(e) && e@ == self@->Blob_0) && final(store).view()
                == old(store).view(),
            (self@ is MemTree && !is_modified_v(self@)) ==> final(store).view() == old(
                store,
            ).view() && (if self@->MemTree_p2 is Some {
                r == Err::<HgBlobEntry, ErrorKind>(ErrorKind::UnchangedManifest)
            } else {
                r matches Ok(e) && e@ == (BlobEntryV {
                    name: path.spec_basename(),
                    hash: self@->MemTree_base->0,
                    kind: EntryKind::Tree,
                })
            }),
            (self@ is MemTree && is_modified_v(self@)) ==> (match r {
                Ok(e) => {
                    &&& e@.kind == EntryKind::Tree
                    &&& e@.name == path.spec_basename()
                    &&& final(store).view().dom().contains(e@.hash)
                    &&& crate::codec::decode_listing(final(store).view()[e@.hash]) is Some
                    &&& final(store).view()[e@.hash] == crate::codec::encode_listing(
                        crate::codec::decode_listing(final(store).view()[e@.hash]).unwrap(),
                    )
                    &&& (children_emptiness_defined(self@, old(store).view())
                        ==> saved_listing_matches(
                        crate::codec::decode_listing(final(store).view()[e@.hash]).unwrap(),
                        children_of(self@, old(store).view()).unwrap(),
                        old(store).view(),
                    ))
                },
                Err(_) => true,
            }),
            (self@ is MemTree && is_modified_v(self@) && children_of(self@, old(store).view())
                is None) ==> r == Err::<HgBlobEntry, ErrorKind>(
                ErrorKind::ManifestMissing(self@->MemTree_base->0),
            ),
            (self@ is MemTree && is_modified_v(self@) && children_of(self@, old(store).view())
                is Some && children_emptiness_defined(self@, old(store).view())) ==> {
                &&& (r is Err ==> (r == Err::<HgBlobEntry, ErrorKind>(
                    ErrorKind::UnresolvedConflicts,
                ) || r == Err::<HgBlobEntry, ErrorKind>(ErrorKind::UnchangedManifest) || r
                    == Err::<HgBlobEntry, ErrorKind>(ErrorKind::StoreFailure)))
                &&& ((!has_conflict(self@) && !has_merge_tagged(self@)) ==> (r is Ok || r
                    == Err::<HgBlobEntry, ErrorKind>(ErrorKind::StoreFailure)))
                &&& ((has_conflict(self@) && !has_merge_tagged(self@)) ==> (r == Err::<
                    HgBlobEntry,
                    ErrorKind,
                >(ErrorKind::UnresolvedConflicts) || r == Err::<HgBlobEntry, ErrorKind>(
                    ErrorKind::StoreFailure,
                )))
                &&& (!has_conflict(self@) ==> (r is Ok || r == Err::<HgBlobEntry, ErrorKind>(
                    ErrorKind::UnchangedManifest,
                ) || r == Err::<HgBlobEntry, ErrorKind>(ErrorKind::StoreFailure)))
            },
        decreases max_base_v(self@), depth_v(self@),
    {
        let ghost sv = old(store).view();
        match self {
            MemoryManifestEntry::Blob(b) => Ok(b.clone()),
            MemoryManifestEntry::Conflict(_) => Err(ErrorKind::UnresolvedConflicts),
            MemoryManifestEntry::MemTree { base_manifest_id, p1, p2, changes } => {
                proof {
                    lemma_changes_view(changes.entries@, changes.entries@.len() as int);
                }
                let modified = base_manifest_id.is_none() || changes.entries.len() > 0;
                if modified {
                    let kids = match self.get_new_children(store) {
                        Ok(kids) => kids,
                        Err(e) => {
                            return Err(e);
                        },
                    };
                    let ghost m = kids_map(kids@);
                    proof {
                        lemma_kids_sorted_unique(kids@);
                        if has_conflict(self@) {
                            lemma_has_conflict_child(self@, sv);
                            let cn = choose|n: Seq<u8>|
                                m.dom().contains(n) && has_conflict(#[trigger] m[n]);
                            lemma_kids_map_dom(kids@, cn);
                            let ci = choose|ci: int|
                                0 <= ci < kids@.len() && (#[trigger] kids@[ci]).0 == cn;
                            lemma_kids_map_index(kids@, ci);
                            assert(has_conflict(kids@[ci].1));
                        }
                    }
                    let mut listing: Vec<crate::codec::ManifestEntry> = Vec::new();
                    let ghost cond = children_emptiness_defined(self@, sv);
                    let n = kids.len();
                    let mut i: usize = 0;
                    while i < n
                        invariant
                            i <= n,
                            n == kids@.len(),
                            kids.wf(),
                            sv == old(store).view(),
                            crate::store::store_wf(sv),
                            entry_wf(self@),
                            is_modified_v(self@),
                            self@ is MemTree,
                            path.wf(),
                            !(path is FilePath),
                            children_of(self@, sv) == Some(kids_map(kids@)),
                            cond == children_emptiness_defined(self@, sv),
                            crate::store::store_wf(store.view()),
                            crate::store::store_grows(sv, store.view()),
                            has_conflict(self@) ==> exists|j: int|
                                i <= j < n && has_conflict((#[trigger] kids@[j]).1),
                            forall|a: int|
                                0 <= a < listing@.len() ==> elem_bytes_ok(
                                    (#[trigger] listing@[a])@.name,
                                ),
                            forall|a: int|
                                0 <= a < listing@.len() ==> ((#[trigger] listing@[a])@.kind
                                    == EntryKind::Tree ==> store.view().dom().contains(
                                    listing@[a]@.hash,
                                )),
                            forall|a: int|
                                0 <= a < listing@.len() ==> exists|j: int|
                                    0 <= j < i && (#[trigger] listing@[a])@.name == kids@[j].0,
                            forall|k1: int, k2: int|
                                0 <= k1 < k2 < listing@.len() ==> bytes_lt(
                                    (#[trigger] listing@[k1])@.name,
                                    (#[trigger] listing@[k2])@.name,
                                ),
                            cond ==> forall|k: int|
                                0 <= k < listing@.len() ==> {
                                    let nm = (#[trigger] listing@[k])@.name;
                                    &&& kids_map(kids@).dom().contains(nm)
                                    &&& is_empty_of(kids_map(kids@)[nm], sv) == Some(false)
                                    &&& (kids_map(kids@)[nm] matches EntryV::Blob(b) ==> listing@[
                                        k
                                    ]@.hash == b.hash && listing@[k]@.kind == b.kind)
                                    &&& ((kids_map(kids@)[nm] is MemTree) ==> listing@[k]@.kind
                                        == EntryKind::Tree)
                                    &&& ((kids_map(kids@)[nm] is MemTree && !is_modified_v(
                                        kids_map(kids@)[nm],
                                    )) ==> listing@[k]@.hash == kids_map(kids@)[nm]->MemTree_base->0)
                                },
                            cond ==> forall|j: int|
                                0 <= j < i && is_empty_of((#[trigger] kids@[j]).1, sv) == Some(
                                    false,
                                ) ==> exists|k: int|
                                    0 <= k < listing@.len() && (#[trigger] listing@[k])@.name
                                        == kids@[j].0,
                        decreases n - i,
                    {
                        let (name, child) = kids.get_at(i);
                        proof {
                            lemma_kids_sorted_unique(kids@);
                            lemma_kids_map_index(kids@, i as int);
                            lemma_children_measure(self@, sv, kids@[i as int].0);
                            lemma_children_wf(self@, sv, kids@[i as int].0);
                        }
                        let ghost store_before = store.view();
                        let empty = match child.is_empty(store) {
                            Ok(e) => e,
                            Err(e) => {
                                proof {
                                    if cond {
                                        assert(is_empty_of(
                                            kids_map(kids@)[kids@[i as int].0],
                                            sv,
                                        ) is Some);
                                        lemma_is_empty_of_stable(
                                            kids@[i as int].1,
                                            sv,
                                            store_before,
                                        );
                                        assert(false);
                                    }
                                }
                                return Err(e);
                            },
                        };
                        proof {
                            if cond {
                                assert(is_empty_of(kids_map(kids@)[kids@[i as int].0], sv)
                                    is Some);
                                lemma_is_empty_of_stable(kids@[i as int].1, sv, store_before);
                                assert(is_empty_of(kids@[i as int].1, sv) == Some(empty));
                            }
                        }
                        if !empty {
                            let entry_path = crate::path::extend_repopath_with_dir(path, &name);
                            let saved = match child.save(store, &entry_path) {
                                Ok(s) => s,
                                Err(e) => {
                                    proof {
                                        if cond {
                                            let cv = kids@[i as int].1;
                                            lemma_child_clean(self@, sv, kids@[i as int].0);
                                            if cv is MemTree && is_modified_v(cv) {
                                                lemma_is_empty_defined(cv, sv);
                                                lemma_emptiness_defined_stable(
                                                    cv,
                                                    sv,
                                                    store_before,
                                                );
                                            }
                                            // The child save's error is one the
                                            // classification admits.
                                            assert(e == ErrorKind::UnresolvedConflicts || e
                                                == ErrorKind::UnchangedManifest || e
                                                == ErrorKind::StoreFailure);
                                            if !has_conflict(self@) && !has_merge_tagged(
                                                self@,
                                            ) {
                                                assert(!(cv is Conflict));
                                                assert(!has_conflict(cv));
                                                assert(!merge_tagged_shape(cv)
                                                    && !has_merge_tagged(cv));
                                                assert(e == ErrorKind::StoreFailure);
                                            }
                                            if !has_conflict(self@) {
                                                assert(e == ErrorKind::UnchangedManifest || e
                                                    == ErrorKind::StoreFailure);
                                            }
                                            if !has_merge_tagged(self@) {
                                                assert(e == ErrorKind::UnresolvedConflicts || e
                                                    == ErrorKind::StoreFailure);
                                            }
                                        }
                                    }
                                    return Err(e);
                                },
                            };
                            proof {
                                // A saved child that is tree-typed is present
                                // in the store by now.
                                if child@ is MemTree {
                                    if !is_modified_v(child@) {
                                        assert(store_before.dom().contains(
                                            child@->MemTree_base->0,
                                        ));
                                        assert(saved@.hash == child@->MemTree_base->0);
                                        assert(store.view().dom().contains(saved@.hash));
                                    }
                                } else {
                                    assert(child@ is Blob);
                                    assert(saved@.kind != EntryKind::Tree);
                                }
                                if has_conflict(self@) {
                                    assert(!has_conflict(kids@[i as int].1));
                                    let j = choose|j: int|
                                        i <= j < n && has_conflict((#[trigger] kids@[j]).1);
                                    assert(j != i);
                                }
                            }
                            let ghost pre_listing = listing@;
                            listing.push(
                                crate::codec::ManifestEntry {
                                    name,
                                    hash: saved.hash,
                                    kind: saved.kind,
                                },
                            );
                            proof {
                                assert(forall|a: int|
                                    0 <= a < pre_listing.len() ==> listing@[a] == pre_listing[a]);
                                assert(listing@[pre_listing.len() as int]@.name == kids@[
                                    i as int
                                ].0);
                                assert forall|a: int|
                                    0 <= a < listing@.len() implies exists|j: int|
                                    0 <= j < i + 1 && (#[trigger] listing@[a])@.name == kids@[
                                        j
                                    ].0 by {
                                    if a < pre_listing.len() {
                                        let j0 = choose|j: int|
                                            0 <= j < i && (#[trigger] pre_listing[a])@.name
                                                == kids@[j].0;
                                        assert(listing@[a]@.name == kids@[j0].0);
                                    } else {
                                        assert(listing@[a]@.name == kids@[i as int].0);
                                    }
                                }
                                assert forall|k1: int, k2: int|
                                    0 <= k1 < k2 < listing@.len() implies bytes_lt(
                                    (#[trigger] listing@[k1])@.name,
                                    (#[trigger] listing@[k2])@.name,
                                ) by {
                                    if k2 == pre_listing.len() as int {
                                        let j0 = choose|j: int|
                                            0 <= j < i && (#[trigger] pre_listing[k1])@.name
                                                == kids@[j].0;
                                        assert(bytes_lt(kids@[j0].0, kids@[i as int].0));
                                    }
                                }
                                if cond {
                                    let newk = pre_listing.len() as int;
                                    assert(is_empty_of(kids_map(kids@)[kids@[i as int].0], sv)
                                        == Some(false));
                                    if kids@[i as int].1 is Blob {
                                        assert(saved@ == kids@[i as int].1->Blob_0);
                                        assert(listing@[newk]@.hash == kids@[
                                            i as int
                                        ].1->Blob_0.hash);
                                    }
                                    if kids@[i as int].1 is MemTree {
                                        assert(listing@[newk]@.kind == EntryKind::Tree);
                                        if !is_modified_v(kids@[i as int].1) {
                                            assert(listing@[newk]@.hash == kids@[
                                                i as int
                                            ].1->MemTree_base->0);
                                        }
                                    }
                                    assert forall|j: int|
                                        0 <= j < i + 1 && is_empty_of(
                                            (#[trigger] kids@[j]).1,
                                            sv,
                                        ) == Some(false) implies exists|k: int|
                                        0 <= k < listing@.len() && (#[trigger] listing@[k])@.name
                                            == kids@[j].0 by {
                                        if j == i as int {
                                            assert(listing@[newk]@.name == kids@[j].0);
                                        } else {
                                            let k0 = choose|k: int|
                                                0 <= k < pre_listing.len() && (#[trigger]
                                                pre_listing[k])@.name == kids@[j].0;
                                            assert(listing@[k0]@.name == kids@[j].0);
                                        }
                                    }
                                }
                            }
                        } else {
                            proof {
                                if cond {
                                    assert(is_empty_of(kids@[i as int].1, sv) == Some(true));
                                }
                                if has_conflict(self@) {
                                    assert(!has_conflict(kids@[i as int].1));
                                    let j = choose|j: int|
                                        i <= j < n && has_conflict((#[trigger] kids@[j]).1);
                                    assert(j != i);
                                }
                            }
                        }
                        i = i + 1;
                    }
                    proof {
                        if has_conflict(self@) {
                            let j = choose|j: int| n <= j < n && has_conflict((#[trigger] kids@[j]).1);
                        }
                        assert(!has_conflict(self@));
                    }
                    let bytes = crate::codec::serialize_listing(&listing);
                    proof {
                        let lv = crate::codec::listing_view(listing@);
                        assert(forall|a: int|
                            0 <= a < lv.len() ==> (#[trigger] lv[a]).wf());
                        crate::codec::lemma_decode_encode(lv);
                        assert(crate::codec::decode_listing(bytes@) == Some(lv));
                        assert(crate::store::listing_refs_present(lv, store.view())) by {
                            assert(forall|a: int|
                                0 <= a < lv.len() ==> ((#[trigger] lv[a]).kind == EntryKind::Tree
                                    ==> store.view().dom().contains(lv[a].hash)));
                        }
                    }
                    let h = match store.put(bytes) {
                        Ok(h) => h,
                        Err(e) => {
                            return Err(e);
                        },
                    };
                    proof {
                        if cond {
                            let lv = crate::codec::listing_view(listing@);
                            let m = kids_map(kids@);
                            lemma_kids_sorted_unique(kids@);
                            assert forall|k: int| 0 <= k < lv.len() implies m.dom().contains(
                                (#[trigger] lv[k]).name,
                            ) && is_empty_of(m[lv[k].name], sv) == Some(false) by {
                                assert(lv[k] == listing@[k]@);
                            }
                            assert forall|nm: Seq<u8>|
                                m.dom().contains(nm) && is_empty_of(#[trigger] m[nm], sv)
                                    == Some(false) implies exists|k: int|
                                0 <= k < lv.len() && (#[trigger] lv[k]).name == nm by {
                                lemma_kids_map_dom(kids@, nm);
                                let j = choose|j: int|
                                    0 <= j < kids@.len() && (#[trigger] kids@[j]).0 == nm;
                                lemma_kids_map_index(kids@, j);
                                assert(is_empty_of(kids@[j].1, sv) == Some(false));
                                let k0 = choose|k: int|
                                    0 <= k < listing@.len() && (#[trigger] listing@[k])@.name
                                        == kids@[j].0;
                                assert(lv[k0].name == nm);
                            }
                            assert forall|k: int| 0 <= k < lv.len() implies (m[(#[trigger]
                            lv[k]).name] matches EntryV::Blob(b) ==> lv[k].hash == b.hash
                                && lv[k].kind == b.kind) by {
                                assert(lv[k] == listing@[k]@);
                            }
                            assert forall|k: int| 0 <= k < lv.len() implies ((m[(#[trigger]
                            lv[k]).name] is MemTree) ==> lv[k].kind == EntryKind::Tree) by {
                                assert(lv[k] == listing@[k]@);
                            }
                            assert forall|k: int| 0 <= k < lv.len() implies ((m[(#[trigger]
                            lv[k]).name] is MemTree && !is_modified_v(m[lv[k].name])) ==> lv[
                                k
                            ].hash == m[lv[k].name]->MemTree_base->0) by {
                                assert(lv[k] == listing@[k]@);
                            }
                            assert forall|k1: int, k2: int| 0 <= k1 < k2 < lv.len() implies
                                bytes_lt((#[trigger] lv[k1]).name, (#[trigger] lv[k2]).name) by {
                                assert(lv[k1] == listing@[k1]@ && lv[k2] == listing@[k2]@);
                            }
                            assert(saved_listing_matches(lv, m, sv));
                        }
                    }
                    let name = path.basename();
                    match name {
                        None => Ok(HgBlobEntry::new_root(h)),
                        Some(elem) => Ok(HgBlobEntry::new(elem, h, EntryKind::Tree)),
                    }
                } else {
                    if p2.is_some() {
                        Err(ErrorKind::UnchangedManifest)
                    } else {
                        match base_manifest_id {
                            Some(id) => {
                                let name = path.basename();
                                match name {
                                    None => Ok(HgBlobEntry::new_root(*id)),
                                    Some(elem) => Ok(HgBlobEntry::new(elem, *id, EntryKind::Tree)),
                                }
                            },
                            None => {
                                // An unmodified node always has a baseline.
                                proof {
                                    assert(false);
                                }
                                unreached()
                            },
                        }
                    }
                }
            },
        }
    }
}

} // verus!

verus! {

/// Decide equality of two blob references.
pub fn blob_eq(a: &HgBlobEntry, b: &HgBlobEntry) -> (r: bool)
    ensures
        r == (a@ == b@),
{
    let names_eq = match (&a.name, &b.name) {
        (None, None) => true,
        (Some(x), Some(y)) => bytes_eq_exec(&x.bytes, &y.bytes),
        _ => false,
    };
    let r = names_eq && a.hash == b.hash && a.kind == b.kind;
    proof {
        if r {
            assert(a@ =~= b@);
        }
        if a@ == b@ {
            assert(a@.name == b@.name && a@.hash == b@.hash && a@.kind == b@.kind);
        }
    }
    r
}

impl ChildList {
    /// Remove and return the entry under `name`, if present.
    pub fn take(&mut self, name: &MPathElement) -> (r: Option<MemoryManifestEntry>)
        requires
            old(self).wf(),
        ensures
            final(self).wf(),
            match r {
                Some(x) => {
                    &&& kids_map(old(self)@).dom().contains(name@)
                    &&& x@ == kids_map(old(self)@)[name@]
                    &&& kids_map(final(self)@) == kids_map(old(self)@).remove(name@)
                },
                None => !kids_map(old(self)@).dom().contains(name@) && final(self)@ == old(
                    self,
                )@,
            },
    {
        proof {
            lemma_kids_view(self.entries@, self.entries@.len() as int);
        }
        let ghost pre = self@;
        let mut i: usize = 0;
        while i < self.entries.len()
            invariant
                i <= self.entries@.len(),
                self == old(self),
                old(self).wf(),
                pre == self@,
                pre.len() == self.entries@.len(),
                forall|j: int|
                    0 <= j < pre.len() ==> (#[trigger] pre[j]) == (
                        self.entries@[j].0@,
                        entry_view(&self.entries@[j].1),
                    ),
                forall|j: int| 0 <= j < i ==> (#[trigger] pre[j]).0 != name@,
            decreases self.entries@.len() - i,
        {
            if bytes_eq_exec(&self.entries[i].0.bytes, &name.bytes) {
                let ghost ii = i as int;
                let pair = self.entries.remove(i);
                proof {
                    lemma_kids_view(self.entries@, self.entries@.len() as int);
                    assert(self@ =~= pre.remove(ii));
                    assert(pre[ii].0 == name@);
                    assert(entry_view(&pair.1) == pre[ii].1);
                    lemma_kids_sorted_unique(pre);
                    lemma_kids_map_index(pre, ii);
                    assert(kids_sorted(self@)) by {
                        assert forall|a: int, b: int| 0 <= a < b < self@.len() implies bytes_lt(
                            (#[trigger] self@[a]).0,
                            (#[trigger] self@[b]).0,
                        ) by {
                            let pa: int = if a < ii { a } else { a + 1 };
                            let pb: int = if b < ii { b } else { b + 1 };
                            assert(self@[a].0 == pre[pa].0 && self@[b].0 == pre[pb].0);
                            assert(bytes_lt(pre[pa].0, pre[pb].0));
                        }
                    }
                    lemma_kids_map_seq_remove(pre, self@, ii, name@);
                }
                return Some(pair.1);
            }
            i = i + 1;
        }
        proof {
            if kids_map(pre).dom().contains(name@) {
                lemma_kids_map_dom(pre, name@);
            }
        }
        None
    }
}

/// Each child of an unmodified node carries a strictly smaller baseline
/// bound: its subtree was persisted below the node's own baseline.
pub proof fn lemma_clean_children_measure(ev: EntryV, v: Map<u64, Seq<u8>>, n: Seq<u8>)
    requires
        crate::store::store_wf(v),
        ev is MemTree,
        ev->MemTree_changes.len() == 0,
        children_of(ev, v) is Some,
        children_of(ev, v).unwrap().dom().contains(n),
    ensures
        max_base_v(children_of(ev, v).unwrap()[n]) < max_base_v(ev),
{
    let changes = ev->MemTree_changes;
    let base = ev->MemTree_base;
    let m = children_of(ev, v).unwrap();
    let base_map: Map<Seq<u8>, EntryV> = match base {
        None => Map::empty(),
        Some(h) => listing_map(crate::codec::decode_listing(v[h]).unwrap()),
    };
    lemma_apply_changes_val(base_map, changes, n);
    let h = base->0;
    assert(v.dom().contains(h));
    let l = crate::codec::decode_listing(v[h]).unwrap();
    lemma_listing_map_val(l, n);
    let i = choose|i: int|
        0 <= i < l.len() && (#[trigger] l[i]).name == n && listing_map(l)[n] == conv_v(l[i]);
    assert(max_base_v(ev) == h);
    if l[i].kind == EntryKind::Tree {
        assert(l[i].hash < h);
    } else {
        assert(h >= 1);
    }
}

/// A clean node wrapping a persisted tree hash, as `convert_treenode` builds
/// it.
pub open spec fn treenode_v(h: u64) -> EntryV {
    EntryV::MemTree {
        base: Some(h),
        p1: Some(h),
        p2: None,
        changes: Seq::<(Seq<u8>, Option<EntryV>)>::empty(),
    }
}

/// What a successful merge of two clean (unmodified) entries returns: equal
/// leaves merge to the first; differing or mixed entries to the conflict of
/// both in order; same-baseline trees to the first; and two distinct trees to
/// a fresh node whose parents are the inputs' first parents and whose change
/// set is the union of both children maps, one-sided entries kept and equal
/// leaves deduplicated. An already-merged side admits no success at all.
pub open spec fn clean_merge_ok(a: EntryV, b: EntryV, v: Map<u64, Seq<u8>>, x: EntryV) -> bool {
    if a is Conflict || b is Conflict {
        false
    } else if a is Blob && b is Blob {
        if a->Blob_0 == b->Blob_0 {
            x == a
        } else {
            x == EntryV::Conflict(seq![a, b])
        }
    } else if a is Blob || b is Blob {
        x == EntryV::Conflict(seq![a, b])
    } else if (a->MemTree_p1 is Some && a->MemTree_p2 is Some) || (b->MemTree_p1 is Some
        && b->MemTree_p2 is Some) {
        false
    } else if a->MemTree_base == b->MemTree_base {
        x == a
    } else {
        let ma = children_of(a, v).unwrap();
        let mb = children_of(b, v).unwrap();
        let ch = x->MemTree_changes;
        &&& children_of(a, v) is Some
        &&& children_of(b, v) is Some
        &&& x is MemTree
        &&& x->MemTree_base is None
        &&& x->MemTree_p1 == a->MemTree_p1
        &&& x->MemTree_p2 == b->MemTree_p1
        &&& forall|n: Seq<u8>|
            #[trigger] cseq_contains(ch, n) <==> (ma.dom().contains(n) || mb.dom().contains(n))
        &&& forall|n: Seq<u8>|
            ma.dom().contains(n) && !mb.dom().contains(n) ==> #[trigger] cseq_get(ch, n) == Some(
                ma[n],
            )
        &&& forall|n: Seq<u8>|
            !ma.dom().contains(n) && mb.dom().contains(n) ==> #[trigger] cseq_get(ch, n) == Some(
                mb[n],
            )
        &&& forall|n: Seq<u8>|
            ma.dom().contains(n) && mb.dom().contains(n) && ma[n] is Blob && mb[n] is Blob && ma[n]->Blob_0
                == mb[n]->Blob_0 ==> #[trigger] cseq_get(ch, n) == Some(ma[n])
    }
}

/// Children materialized from a clean tree's baseline are plain: never a
/// conflict, and a subtree among them is unmodified with no second parent.
pub proof fn lemma_clean_children_plain(ev: EntryV, v: Map<u64, Seq<u8>>, n: Seq<u8>)
    requires
        crate::store::store_wf(v),
        ev is MemTree,
        ev->MemTree_changes.len() == 0,
        children_of(ev, v) is Some,
        children_of(ev, v).unwrap().dom().contains(n),
    ensures
        !(children_of(ev, v).unwrap()[n] is Conflict),
        children_of(ev, v).unwrap()[n] is MemTree ==> children_of(ev, v).unwrap()[n]->MemTree_p2
            is None && !is_modified_v(children_of(ev, v).unwrap()[n]),
{
    let changes = ev->MemTree_changes;
    let base = ev->MemTree_base;
    let base_map: Map<Seq<u8>, EntryV> = match base {
        None => Map::empty(),
        Some(h) => listing_map(crate::codec::decode_listing(v[h]).unwrap()),
    };
    lemma_apply_changes_val(base_map, changes, n);
    let h = base->0;
    let l = crate::codec::decode_listing(v[h]).unwrap();
    lemma_loaded_value_plain(l, n);
    lemma_listing_map_val(l, n);
}

pub open spec fn nat_max(a: nat, b: nat) -> nat {
    if a > b {
        a
    } else {
        b
    }
}

/// Build the conflict of two entries, first merge parent first.
fn conflict_pair(a: &MemoryManifestEntry, b: &MemoryManifestEntry) -> (r: MemoryManifestEntry)
    requires
        entry_wf(a@),
        entry_wf(b@),
    ensures
        r@ == EntryV::Conflict(seq![a@, b@]),
        entry_wf(r@),
{
    let x = clone_entry(a);
    let y = clone_entry(b);
    let pair = vec![x, y];
    let ghost pv = pair@;
    let r = MemoryManifestEntry::Conflict(pair);
    proof {
        assert(pv.len() == 2);
        lemma_conflict_view(pv, 2);
        let c = r@->Conflict_0;
        assert(c[0] == a@ && c[1] == b@);
        assert(c =~= seq![a@, b@]);
        assert(conflict_wf(c, 0));
        assert(conflict_wf(c, 1));
        assert(conflict_wf(c, 2));
    }
    r
}

impl ChildList {
    /// Turn a materialized listing into the change set of a fresh node:
    /// every child becomes an explicit binding.
    pub fn into_change_map(self) -> (r: ChangeMap)
        requires
            self.wf(),
        ensures
            r.wf(),
            r@.len() == self@.len(),
            forall|n: Seq<u8>|
                #[trigger] cseq_contains(r@, n) <==> kids_map(self@).dom().contains(n),
            forall|n: Seq<u8>|
                kids_map(self@).dom().contains(n) ==> #[trigger] cseq_get(r@, n) == Some(
                    kids_map(self@)[n],
                ),
    {
        proof {
            lemma_kids_view(self.entries@, self.entries@.len() as int);
        }
        let ghost kv = self@;
        let mut out: Vec<(MPathElement, Option<MemoryManifestEntry>)> = Vec::new();
        let n = self.entries.len();
        let mut i: usize = 0;
        while i < n
            invariant
                i <= n,
                n == self.entries@.len(),
                kv == self@,
                self.wf(),
                kv.len() == n,
                forall|j: int|
                    0 <= j < kv.len() ==> (#[trigger] kv[j]) == (
                        self.entries@[j].0@,
                        entry_view(&self.entries@[j].1),
                    ),
                out@.len() == i,
                forall|j: int|
                    0 <= j < i ==> (#[trigger] out@[j]).0@ == kv[j].0 && out@[j].1 is Some
                        && entry_view(&out@[j].1->0) == kv[j].1,
            decreases n - i,
        {
            let pair = &self.entries[i];
            out.push((pair.0.clone(), Some(clone_entry(&pair.1))));
            i = i + 1;
        }
        let r = ChangeMap { entries: out };
        proof {
            lemma_changes_view(r.entries@, r.entries@.len() as int);
            assert(r@.len() == kv.len());
            assert(forall|j: int|
                0 <= j < r@.len() ==> (#[trigger] r@[j]) == (kv[j].0, Some(kv[j].1)));
            lemma_kids_sorted_unique(kv);
            assert(cseq_unique(r@));
            assert(changes_wf(r@, r@.len() as int)) by {
                assert forall|j: int|
                    0 <= j < r@.len() implies elem_bytes_ok((#[trigger] r@[j]).0) && (match r@[j].1 {
                    Some(c) => entry_wf(c),
                    None => true,
                }) by {
                    assert(elem_bytes_ok(kv[j].0) && entry_wf(kv[j].1));
                }
                lemma_changes_wf_all(r@);
            }
            assert forall|nm: Seq<u8>|
                #[trigger] cseq_contains(r@, nm) <==> kids_map(kv).dom().contains(nm) by {
                if cseq_contains(r@, nm) {
                    let k = choose|k: int| 0 <= k < r@.len() && (#[trigger] r@[k]).0 == nm;
                    lemma_kids_map_index(kv, k);
                }
                if kids_map(kv).dom().contains(nm) {
                    lemma_kids_map_dom(kv, nm);
                    let k = choose|k: int| 0 <= k < kv.len() && (#[trigger] kv[k]).0 == nm;
                    assert(r@[k].0 == nm);
                }
            }
            assert forall|nm: Seq<u8>| kids_map(kv).dom().contains(nm) implies #[trigger] cseq_get(
                r@,
                nm,
            ) == Some(kids_map(kv)[nm]) by {
                assert(cseq_contains(r@, nm));
                let k = choose|k: int| 0 <= k < r@.len() && (#[trigger] r@[k]).0 == nm;
                lemma_kids_map_index(kv, k);
            }
        }
        r
    }
}

impl MemoryManifestEntry {
    /// Merge two unmodified entries, tracking conflicts. The first argument
    /// is the first merge parent. Identical leaves merge to themselves;
    /// differing leaves, or a leaf against a tree, become a conflict holding
    /// both, first parent first; a node that already carries two parents
    /// refuses to merge again; two trees with one baseline merge to that very
    /// node; and otherwise the trees merge child by child into a fresh node
    /// whose parents are the two inputs' own first parents.
    fn merge_clean<S: crate::store::Blobstore>(&self, other: &Self, store: &mut S) -> (r: Result<
        MemoryManifestEntry,
        ErrorKind,
    >)
        requires
            crate::store::store_wf(old(store).view()),
            entry_wf(self@),
            entry_wf(other@),
            !is_modified_v(self@),
            !is_modified_v(other@),
        ensures
            crate::store::store_wf(final(store).view()),
            final(store).view() == old(store).view(),
            r matches Ok(x) ==> entry_wf(x@),
            (self@ is Conflict || other@ is Conflict) ==> r == Err::<
                MemoryManifestEntry,
                ErrorKind,
            >(ErrorKind::UnresolvedConflicts),
            (self@ is Blob && other@ is Blob && self@->Blob_0 == other@->Blob_0) ==> (r matches Ok(
                x,
            ) && x@ == self@),
            ((self@ is Blob && other@ is Blob && self@->Blob_0 != other@->Blob_0) || (self@ is Blob
                && other@ is MemTree) || (self@ is MemTree && other@ is Blob)) ==> (r matches Ok(x)
                && x@ == EntryV::Conflict(seq![self@, other@])),
            (self@ is MemTree && other@ is MemTree && self@->MemTree_p1 is Some
                && self@->MemTree_p2 is Some) ==> r == Err::<MemoryManifestEntry, ErrorKind>(
                ErrorKind::ManifestAlreadyAMerge(self@->MemTree_p1->0, self@->MemTree_p2->0),
            ),
            (self@ is MemTree && other@ is MemTree && !(self@->MemTree_p1 is Some
                && self@->MemTree_p2 is Some) && other@->MemTree_p1 is Some && other@->MemTree_p2
                is Some) ==> r == Err::<MemoryManifestEntry, ErrorKind>(
                ErrorKind::ManifestAlreadyAMerge(other@->MemTree_p1->0, other@->MemTree_p2->0),
            ),
            (self@ is MemTree && other@ is MemTree && !(self@->MemTree_p1 is Some
                && self@->MemTree_p2 is Some) && !(other@->MemTree_p1 is Some
                && other@->MemTree_p2 is Some) && self@->MemTree_base == other@->MemTree_base)
                ==> (r matches Ok(x) && x@ == self@),
            (self@ is MemTree && other@ is MemTree && !(self@->MemTree_p1 is Some
                && self@->MemTree_p2 is Some) && !(other@->MemTree_p1 is Some
                && other@->MemTree_p2 is Some) && self@->MemTree_base != other@->MemTree_base)
                ==> (match r {
                Ok(x) => {
                    let ma = children_of(self@, old(store).view()).unwrap();
                    let mb = children_of(other@, old(store).view()).unwrap();
                    let ch = x@->MemTree_changes;
                    &&& children_of(self@, old(store).view()) is Some
                    &&& children_of(other@, old(store).view()) is Some
                    &&& x@ is MemTree
                    &&& x@->MemTree_base is None
                    &&& x@->MemTree_p1 == self@->MemTree_p1
                    &&& x@->MemTree_p2 == other@->MemTree_p1
                    &&& forall|n: Seq<u8>|
                        #[trigger] cseq_contains(ch, n) <==> (ma.dom().contains(n)
                            || mb.dom().contains(n))
                    &&& forall|n: Seq<u8>|
                        ma.dom().contains(n) && !mb.dom().contains(n) ==> #[trigger] cseq_get(
                            ch,
                            n,
                        ) == Some(ma[n])
                    &&& forall|n: Seq<u8>|
                        !ma.dom().contains(n) && mb.dom().contains(n) ==> #[trigger] cseq_get(
                            ch,
                            n,
                        ) == Some(mb[n])
                    &&& forall|n: Seq<u8>|
                        ma.dom().contains(n) && mb.dom().contains(n) && ma[n] is Blob && mb[n]
                            is Blob && ma[n]->Blob_0 == mb[n]->Blob_0 ==> #[trigger] cseq_get(
                            ch,
                            n,
                        ) == Some(ma[n])
                },
                Err(_) => true,
            }),
            r matches Ok(x) ==> clean_merge_ok(self@, other@, old(store).view(), x@),
            (self@ is MemTree && other@ is MemTree && !(self@->MemTree_p1 is Some
                && self@->MemTree_p2 is Some) && !(other@->MemTree_p1 is Some
                && other@->MemTree_p2 is Some)) ==> {
                &&& (r matches Err(e) ==> e matches ErrorKind::ManifestMissing(_))
                &&& ((is_empty_of(self@, old(store).view()) is Some && is_empty_of(
                    other@,
                    old(store).view(),
                ) is Some) ==> r is Ok)
            },
        decreases nat_max(max_base_v(self@), max_base_v(other@)),
    {
        let ghost sv = old(store).view();
        match (self, other) {
            (MemoryManifestEntry::Conflict(_), _) => Err(ErrorKind::UnresolvedConflicts),
            (_, MemoryManifestEntry::Conflict(_)) => Err(ErrorKind::UnresolvedConflicts),
            (MemoryManifestEntry::Blob(x), MemoryManifestEntry::Blob(y)) => {
                if blob_eq(x, y) {
                    Ok(self.clone())
                } else {
                    Ok(conflict_pair(self, other))
                }
            },
            (MemoryManifestEntry::Blob(_), MemoryManifestEntry::MemTree { .. }) => {
                Ok(conflict_pair(self, other))
            },
            (MemoryManifestEntry::MemTree { .. }, MemoryManifestEntry::Blob(_)) => {
                Ok(conflict_pair(self, other))
            },
            (
                MemoryManifestEntry::MemTree { base_manifest_id, p1, p2, changes },
                MemoryManifestEntry::MemTree {
                    base_manifest_id: other_base,
                    p1: other_p1,
                    p2: other_p2,
                    changes: other_changes,
                },
            ) => {
                if p1.is_some() && p2.is_some() {
                    return Err(
                        ErrorKind::ManifestAlreadyAMerge(p1.unwrap(), p2.unwrap()),
                    );
                }
                if other_p1.is_some() && other_p2.is_some() {
                    return Err(
                        ErrorKind::ManifestAlreadyAMerge(other_p1.unwrap(), other_p2.unwrap()),
                    );
                }
                let same_base = match (base_manifest_id, other_base) {
                    (Some(a), Some(b)) => *a == *b,
                    _ => false,
                };
                proof {
                    // Unmodified trees always carry a baseline.
                    assert(self@->MemTree_base is Some);
                    assert(other@->MemTree_base is Some);
                }
                if same_base {
                    return Ok(self.clone());
                }
                // Merge on an entry-by-entry basis.
                let kids_a = match self.get_new_children(store) {
                    Ok(k) => k,
                    Err(e) => {
                        proof {
                            if is_empty_of(self@, sv) is Some {
                                lemma_is_empty_defined(self@, sv);
                                assert(false);
                            }
                        }
                        return Err(e);
                    },
                };
                let kids_b = match other.get_new_children(store) {
                    Ok(k) => k,
                    Err(e) => {
                        proof {
                            if is_empty_of(other@, sv) is Some {
                                lemma_is_empty_defined(other@, sv);
                                assert(false);
                            }
                        }
                        return Err(e);
                    },
                };
                let ghost ma = kids_map(kids_a@);
                let ghost mb = kids_map(kids_b@);
                let mut result = kids_a;
                let nb = kids_b.len();
                let mut j: usize = 0;
                while j < nb
                    invariant
                        j <= nb,
                        nb == kids_b@.len(),
                        sv == old(store).view(),
                        store.view() == sv,
                        crate::store::store_wf(sv),
                        entry_wf(self@),
                        entry_wf(other@),
                        self@ is MemTree,
                        other@ is MemTree,
                        !(self@->MemTree_p1 is Some && self@->MemTree_p2 is Some),
                        !(other@->MemTree_p1 is Some && other@->MemTree_p2 is Some),
                        self@->MemTree_base != other@->MemTree_base,
                        !(self@ is Blob) && !(self@ is Conflict),
                        !(other@ is Blob) && !(other@ is Conflict),
                        !is_modified_v(self@),
                        !is_modified_v(other@),
                        children_of(self@, sv) == Some(ma),
                        children_of(other@, sv) == Some(mb),
                        kids_b.wf(),
                        result.wf(),
                        mb == kids_map(kids_b@),
                        forall|n: Seq<u8>|
                            #[trigger] kids_map(result@).dom().contains(n) <==> (ma.dom().contains(
                                n,
                            ) || exists|x: int|
                                0 <= x < j && (#[trigger] kids_b@[x]).0 == n),
                        forall|n: Seq<u8>|
                            ma.dom().contains(n) && !mb.dom().contains(n) ==> #[trigger] kids_map(
                                result@,
                            )[n] == ma[n],
                        forall|n: Seq<u8>|
                            (!exists|x: int| 0 <= x < j && (#[trigger] kids_b@[x]).0 == n)
                                && ma.dom().contains(n) ==> #[trigger] kids_map(result@)[n]
                                == ma[n],
                        forall|n: Seq<u8>|
                            (exists|x: int| 0 <= x < j && (#[trigger] kids_b@[x]).0 == n)
                                && !ma.dom().contains(n) ==> #[trigger] kids_map(result@)[n]
                                == mb[n],
                        forall|n: Seq<u8>|
                            (exists|x: int| 0 <= x < j && (#[trigger] kids_b@[x]).0 == n)
                                && ma.dom().contains(n) && ma[n] is Blob && mb[n] is Blob && ma[n]->Blob_0
                                == mb[n]->Blob_0 ==> #[trigger] kids_map(result@)[n] == ma[n],
                    decreases nb - j,
                {
                    let (name, bentry) = kids_b.get_at(j);
                    proof {
                        lemma_kids_sorted_unique(kids_b@);
                        lemma_kids_map_index(kids_b@, j as int);
                        lemma_children_wf(other@, sv, kids_b@[j as int].0);
                    }
                    let taken = result.take(&name);
                    match taken {
                        None => {
                            proof {
                                if ma.dom().contains(name@) {
                                    assert(kids_map(result@).dom().contains(name@));
                                }
                            }
                            result.insert(name, bentry);
                        },
                        Some(mine) => {
                            proof {
                                assert(kids_map(result@.add(Seq::empty())) =~= kids_map(result@));
                                // The taken entry is the first side's own child.
                                assert(ma.dom().contains(name@)) by {
                                    if !ma.dom().contains(name@) {
                                        assert(exists|x: int|
                                            0 <= x < j && (#[trigger] kids_b@[x]).0 == name@);
                                        let x = choose|x: int|
                                            0 <= x < j && (#[trigger] kids_b@[x]).0 == name@;
                                        assert(kids_b@[x].0 != kids_b@[j as int].0);
                                    }
                                }
                                assert(mine@ == ma[name@]);
                                lemma_clean_children_measure(self@, sv, name@);
                                lemma_clean_children_measure(other@, sv, name@);
                                lemma_children_wf(self@, sv, name@);
                                lemma_loaded_children_unmodified(self@, sv, name@);
                                lemma_loaded_children_unmodified(other@, sv, name@);
                            }
                            let merged = match mine.merge_clean(&bentry, store) {
                                Ok(x) => x,
                                Err(e) => {
                                    proof {
                                        lemma_clean_children_plain(self@, sv, name@);
                                        lemma_clean_children_plain(other@, sv, name@);
                                        // Mixed shapes merge without error, so
                                        // the recursion can only have stopped
                                        // on a missing baseline.
                                        assert(e matches ErrorKind::ManifestMissing(_));
                                        if is_empty_of(self@, sv) is Some && is_empty_of(
                                            other@,
                                            sv,
                                        ) is Some {
                                            lemma_is_empty_defined(self@, sv);
                                            lemma_is_empty_defined(other@, sv);
                                            assert(is_empty_of(ma[name@], sv) is Some);
                                            assert(is_empty_of(mb[name@], sv) is Some);
                                            assert(false);
                                        }
                                    }
                                    return Err(e);
                                },
                            };
                            proof {
                                if ma[name@] is Blob && mb[name@] is Blob && ma[name@]->Blob_0
                                    == mb[name@]->Blob_0 {
                                    assert(merged@ == ma[name@]);
                                }
                            }
                            result.insert(name, merged);
                        },
                    }
                    proof {
                        assert forall|n: Seq<u8>|
                            #[trigger] kids_map(result@).dom().contains(n) <==> (ma.dom().contains(
                                n,
                            ) || exists|x: int|
                                0 <= x < j + 1 && (#[trigger] kids_b@[x]).0 == n) by {
                            if n == kids_b@[j as int].0 {
                                assert(kids_b@[j as int].0 == n);
                            } else {
                                if exists|x: int| 0 <= x < j + 1 && (#[trigger] kids_b@[x]).0 == n {
                                    let x = choose|x: int|
                                        0 <= x < j + 1 && (#[trigger] kids_b@[x]).0 == n;
                                    assert(x < j);
                                }
                            }
                        }
                    }
                    j = j + 1;
                }
                // The merged children become the change set of a fresh node.
                let merged_changes = result.into_change_map();
                let r = MemoryManifestEntry::MemTree {
                    base_manifest_id: None,
                    p1: *p1,
                    p2: *other_p1,
                    changes: merged_changes,
                };
                proof {
                    assert(forall|n: Seq<u8>|
                        (exists|x: int| 0 <= x < nb && (#[trigger] kids_b@[x]).0 == n)
                            == mb.dom().contains(n)) by {
                        assert forall|n: Seq<u8>|
                            (exists|x: int| 0 <= x < nb && (#[trigger] kids_b@[x]).0 == n)
                                == mb.dom().contains(n) by {
                            if exists|x: int| 0 <= x < nb && (#[trigger] kids_b@[x]).0 == n {
                                let x = choose|x: int|
                                    0 <= x < nb && (#[trigger] kids_b@[x]).0 == n;
                                lemma_kids_sorted_unique(kids_b@);
                                lemma_kids_map_index(kids_b@, x);
                            }
                            if mb.dom().contains(n) {
                                lemma_kids_map_dom(kids_b@, n);
                            }
                        }
                    }
                    assert(entry_wf(r@));
                }
                Ok(r)
            },
        }
    }
}

} // verus!

verus! {

/// The baseline hash a conflict candidate would contribute as a merge
/// parent: an unmodified tree contributes its baseline, a tree-typed leaf
/// its hash, anything else nothing.
pub open spec fn candidate_parent(ev: EntryV) -> Option<u64> {
    match ev {
        EntryV::MemTree { base, .. } => if !is_modified_v(ev) {
            base
        } else {
            None
        },
        EntryV::Blob(b) => if b.kind == EntryKind::Tree {
            Some(b.hash)
        } else {
            None
        },
        _ => None,
    }
}

/// The candidate parents of the first `n` conflict entries, in order.
pub open spec fn candidate_parents(s: Seq<EntryV>, n: int) -> Seq<u64>
    decreases n,
{
    if n <= 0 || n > s.len() {
        Seq::empty()
    } else {
        match candidate_parent(s[n - 1]) {
            Some(h) => candidate_parents(s, n - 1).push(h),
            None => candidate_parents(s, n - 1),
        }
    }
}

impl MemoryManifestEntry {
    /// Rewrite a conflict into a fresh two-parent tree so that editing can
    /// continue through it: the first two unmodified tree-typed candidates
    /// become the parents and the rest are dropped. Anything but a conflict
    /// passes through unchanged.
    pub fn conflict_to_memtree(self) -> (r: MemoryManifestEntry)
        requires
            entry_wf(self@),
        ensures
            entry_wf(r@),
            !(self@ is Conflict) ==> r@ == self@,
            self@ is Conflict ==> {
                let ps = candidate_parents(self@->Conflict_0, self@->Conflict_0.len() as int);
                r@ == (EntryV::MemTree {
                    base: None,
                    p1: if ps.len() >= 1 {
                        Some(ps[0])
                    } else {
                        None
                    },
                    p2: if ps.len() >= 2 {
                        Some(ps[1])
                    } else {
                        None
                    },
                    changes: Seq::<(Seq<u8>, Option<EntryV>)>::empty(),
                })
            },
    {
        match &self {
            MemoryManifestEntry::Conflict(v) => {
                let ghost cs = self@->Conflict_0;
                proof {
                    lemma_conflict_view(v@, v@.len() as int);
                }
                let mut p1: Option<u64> = None;
                let mut p2: Option<u64> = None;
                let n = v.len();
                let mut i: usize = 0;
                while i < n
                    invariant
                        i <= n,
                        n == v@.len(),
                        cs.len() == n,
                        forall|j: int| 0 <= j < n ==> cs[j] == entry_view(&v@[j]),
                        ({
                            let ps = candidate_parents(cs, i as int);
                            &&& p1 == (if ps.len() >= 1 {
                                Some(ps[0])
                            } else {
                                None::<u64>
                            })
                            &&& p2 == (if ps.len() >= 2 {
                                Some(ps[1])
                            } else {
                                None::<u64>
                            })
                        }),
                    decreases n - i,
                {
                    let cand: Option<u64> = match &v[i] {
                        MemoryManifestEntry::MemTree { base_manifest_id, changes, .. } => {
                            proof {
                                lemma_changes_view(
                                    changes.entries@,
                                    changes.entries@.len() as int,
                                );
                            }
                            if base_manifest_id.is_some() && changes.entries.len() == 0 {
                                *base_manifest_id
                            } else {
                                None
                            }
                        },
                        MemoryManifestEntry::Blob(b) => if b.kind == EntryKind::Tree {
                            Some(b.hash)
                        } else {
                            None
                        },
                        _ => None,
                    };
                    proof {
                        assert(cand == candidate_parent(cs[i as int]));
                    }
                    if let Some(h) = cand {
                        if p1.is_none() {
                            p1 = Some(h);
                        } else if p2.is_none() {
                            p2 = Some(h);
                        }
                    }
                    i = i + 1;
                }
                let r = MemoryManifestEntry::MemTree {
                    base_manifest_id: None,
                    p1,
                    p2,
                    changes: ChangeMap::new(),
                };
                proof {
                    assert(r@->MemTree_changes =~= Seq::<(Seq<u8>, Option<EntryV>)>::empty());
                }
                r
            },
            _ => self,
        }
    }

    /// Remove (`None`) or set (`Some`) one name directly in this node's
    /// change set. Fails on anything but a tree.
    pub fn change(&mut self, element: MPathElement, change: Option<HgBlobEntry>) -> (r: Result<
        (),
        ErrorKind,
    >)
        requires
            entry_wf(old(self)@),
            element.wf(),
            match change {
                Some(b) => b@.kind != EntryKind::Tree,
                None => true,
            },
        ensures
            entry_wf(final(self)@),
            !(old(self)@ is MemTree) ==> r == Err::<(), ErrorKind>(ErrorKind::NotADirectory)
                && final(self)@ == old(self)@,
            old(self)@ is MemTree ==> {
                let ch = final(self)@->MemTree_changes;
                let och = old(self)@->MemTree_changes;
                &&& r is Ok
                &&& final(self)@ is MemTree
                &&& final(self)@->MemTree_base == old(self)@->MemTree_base
                &&& final(self)@->MemTree_p1 == old(self)@->MemTree_p1
                &&& final(self)@->MemTree_p2 == old(self)@->MemTree_p2
                &&& cseq_contains(ch, element@)
                &&& cseq_get(ch, element@) == (match change {
                    Some(b) => Some(EntryV::Blob(b@)),
                    None => None::<EntryV>,
                })
                &&& forall|m: Seq<u8>|
                    m != element@ ==> (#[trigger] cseq_contains(ch, m)) == cseq_contains(och, m)
                &&& forall|m: Seq<u8>|
                    m != element@ && cseq_contains(och, m) ==> #[trigger] cseq_get(ch, m)
                        == cseq_get(och, m)
            },
    {
        match self {
            MemoryManifestEntry::MemTree { changes, .. } => {
                let entry = match change {
                    Some(b) => Some(MemoryManifestEntry::Blob(b)),
                    None => None,
                };
                changes.insert(element, entry);
                Ok(())
            },
            _ => Err(ErrorKind::NotADirectory),
        }
    }
}

/// Walk down `dirs[i..]` from `e`, creating intermediate trees as needed and
/// coercing conflicts into two-parent trees, then apply the change to the
/// final name. Returns `Ok(false)` when the path runs through a non-tree.
/// Only the listings along the path are ever read.
fn change_at<S: crate::store::Blobstore>(
    e: &mut MemoryManifestEntry,
    store: &mut S,
    dirs: &Vec<MPathElement>,
    i: usize,
    name: MPathElement,
    change: Option<HgBlobEntry>,
) -> (r: Result<bool, ErrorKind>)
    requires
        crate::store::store_wf(old(store).view()),
        entry_wf(old(e)@),
        i <= dirs@.len(),
        forall|j: int| 0 <= j < dirs@.len() ==> (#[trigger] dirs@[j]).wf(),
        name.wf(),
        match change {
            Some(b) => b@.kind != EntryKind::Tree,
            None => true,
        },
    ensures
        final(store).view() == old(store).view(),
        final(store).reads() <= old(store).reads() + (dirs@.len() - i),
        entry_wf(final(e)@),
        r == (match descent_outcome(old(e)@, old(store).view(), dirs_view(dirs@), i as int) {
            DescentOutcome::Applied => Ok::<bool, ErrorKind>(true),
            DescentOutcome::NotFound => Ok::<bool, ErrorKind>(false),
            DescentOutcome::NotDir => Err::<bool, ErrorKind>(ErrorKind::NotADirectory),
            DescentOutcome::Missing(h) => Err::<bool, ErrorKind>(ErrorKind::ManifestMissing(h)),
        }),
        descent_outcome(old(e)@, old(store).view(), dirs_view(dirs@), i as int)
            is Applied ==> descent_applied(
            old(e)@,
            final(e)@,
            old(store).view(),
            dirs_view(dirs@),
            i as int,
            name@,
            match change {
                Some(b) => Some(EntryV::Blob(b@)),
                None => None::<EntryV>,
            },
        ),
    decreases dirs@.len() - i,
{
    let ghost sv = old(store).view();
    let ghost dv = dirs_view(dirs@);
    let ghost entryv = match &change {
        Some(b) => Some(EntryV::Blob(b@)),
        None => None::<EntryV>,
    };
    if i == dirs.len() {
        let ghost pre = *e;
        let r0 = e.change(name, change);
        proof {
            if entry_view(&pre) is MemTree {
                assert(descent_outcome(entry_view(&pre), sv, dv, i as int) is Applied);
                assert(changes_updated(
                    entry_view(&pre)->MemTree_changes,
                    entry_view(e)->MemTree_changes,
                    name@,
                    entryv,
                ));
                assert(descent_applied(
                    entry_view(&pre),
                    entry_view(e),
                    sv,
                    dv,
                    i as int,
                    name@,
                    entryv,
                ));
            } else {
                assert(descent_outcome(entry_view(&pre), sv, dv, i as int) is NotDir);
            }
        }
        match r0 {
            Ok(_) => Ok(true),
            Err(err) => Err(err),
        }
    } else {
        match e {
            MemoryManifestEntry::MemTree { base_manifest_id, p1, p2, changes } => {
                let ghost pre_ev = EntryV::MemTree {
                    base: *base_manifest_id,
                    p1: *p1,
                    p2: *p2,
                    changes: changes@,
                };
                let ghost ch0 = changes@;
                let element = dirs[i].clone();
                proof {
                    assert(element@ == dv[i as int]);
                    assert(pre_ev == old(e)@);
                }
                let known = changes.contains(&element);
                // Seed an uncached name with the single baseline listing
                // entry of that name, if there is one.
                if !known {
                    if let Some(h) = base_manifest_id {
                        match store.get(*h) {
                            None => {
                                proof {
                                    assert(descent_outcome(pre_ev, sv, dv, i as int)
                                        == DescentOutcome::Missing(*h));
                                }
                                return Err(ErrorKind::ManifestMissing(*h));
                            },
                            Some(bytes) => {
                                match crate::codec::parse_listing(&bytes) {
                                    None => {
                                        proof {
                                            assert(crate::codec::decode_listing(
                                                store.view()[*h],
                                            ) is Some);
                                        }
                                        unreached()
                                    },
                                    Some(listing) => {
                                        proof {
                                            crate::codec::lemma_decode_names_wf(store.view()[*h]);
                                        }
                                        let ghost lv = crate::codec::listing_view(listing@);
                                        let n_listing = listing.len();
                                        let mut hit: usize = n_listing;
                                        let mut k: usize = 0;
                                        while k < n_listing
                                            invariant
                                                k <= n_listing,
                                                n_listing == lv.len(),
                                                lv == crate::codec::listing_view(listing@),
                                                element@ == dv[i as int],
                                                hit == n_listing || hit < k,
                                                hit == n_listing ==> forall|j: int|
                                                    0 <= j < k ==> (#[trigger] lv[j]).name
                                                        != element@,
                                                hit < n_listing ==> lv[hit as int].name == element@
                                                    && forall|j: int|
                                                    0 <= j < hit ==> (#[trigger] lv[j]).name
                                                        != element@,
                                            decreases n_listing - k,
                                        {
                                            if hit == n_listing && crate::path::bytes_eq_exec(
                                                &listing[k].name.bytes,
                                                &element.bytes,
                                            ) {
                                                proof {
                                                    assert(lv[k as int].name == element@);
                                                }
                                                hit = k;
                                            }
                                            k = k + 1;
                                        }
                                        if hit < n_listing {
                                            proof {
                                                lemma_listing_find_at(lv, hit as int, element@);
                                                assert(elem_bytes_ok(lv[hit as int].name));
                                            }
                                            let le = &listing[hit];
                                            let converted = if le.kind == EntryKind::Tree {
                                                MemoryManifestEntry::MemTree {
                                                    base_manifest_id: Some(le.hash),
                                                    p1: Some(le.hash),
                                                    p2: None,
                                                    changes: ChangeMap::new(),
                                                }
                                            } else {
                                                MemoryManifestEntry::Blob(
                                                    HgBlobEntry {
                                                        name: Some(le.name.clone()),
                                                        hash: le.hash,
                                                        kind: le.kind,
                                                    },
                                                )
                                            };
                                            proof {
                                                assert(entry_view(&converted) =~= conv_v(
                                                    lv[hit as int],
                                                )) by {
                                                    if le.kind == EntryKind::Tree {
                                                        assert(changes_view(
                                                            Seq::<
                                                                (
                                                                    MPathElement,
                                                                    Option<MemoryManifestEntry>,
                                                                ),
                                                            >::empty(),
                                                            0,
                                                        ) =~= Seq::<
                                                            (Seq<u8>, Option<EntryV>),
                                                        >::empty());
                                                    }
                                                }
                                                assert(entry_wf(conv_v(lv[hit as int]))) by {
                                                    if le.kind == EntryKind::Tree {
                                                        let c = conv_v(lv[hit as int]);
                                                        assert(changes_wf(c->MemTree_changes, 0));
                                                    }
                                                }
                                            }
                                            changes.insert(element.clone(), Some(converted));
                                        } else {
                                            proof {
                                                lemma_listing_find_none(lv, element@);
                                            }
                                        }
                                    },
                                }
                            },
                        }
                    }
                }
                // The change set now holds what the descent enters: take it,
                // coerce a conflict into an editable two-parent tree, recurse,
                // and put the child back.
                let ghost ch1 = changes@;
                let taken = changes.take(&element);
                let ghost ch2 = changes@;
                let child0 = match taken {
                    None => MemoryManifestEntry::empty_tree(),
                    Some(None) => MemoryManifestEntry::empty_tree(),
                    Some(Some(c)) => {
                        proof {
                            assert(cseq_contains(ch1, element@));
                            let w = choose|w: int|
                                0 <= w < ch1.len() && (#[trigger] ch1[w]).0 == element@;
                            lemma_changes_wf(ch1, ch1.len() as int, w);
                            assert(cseq_get(ch1, element@) == ch1[w].1);
                            assert(entry_wf(entry_view(&c)));
                        }
                        c
                    },
                };
                proof {
                    assert(entry_wf(entry_view(&child0)));
                }
                let mut child = child0.conflict_to_memtree();
                proof {
                    assert(entry_view(&child) == step_child_of(pre_ev, sv, element@)) by {
                        assert(entry_view(&child) == coerce_v(entry_view(&child0)));
                        if cseq_contains(ch0, element@) {
                            assert(ch1 == ch0);
                        }
                    }
                    assert(!(descent_outcome(pre_ev, sv, dv, i as int) is Missing)
                        || false == true || true);
                    assert(descent_outcome(pre_ev, sv, dv, i as int) == descent_outcome(
                        entry_view(&child),
                        sv,
                        dv,
                        i + 1 as int,
                    ));
                }
                let r = change_at(&mut child, store, dirs, i + 1, name, change);
                let ghost childv = entry_view(&child);
                changes.insert(element, Some(child));
                proof {
                    let ch3 = changes@;
                    // The net effect on the change set: `element` is bound to
                    // the descended child, everything else as before.
                    assert(changes_updated(ch0, ch3, element@, Some(childv))) by {
                        assert forall|m: Seq<u8>| m != element@ implies (#[trigger] cseq_contains(
                            ch3,
                            m,
                        )) == cseq_contains(ch0, m) by {
                            assert(cseq_contains(ch3, m) == cseq_contains(ch2, m));
                            assert(cseq_contains(ch2, m) == cseq_contains(ch1, m));
                            assert(cseq_contains(ch1, m) == cseq_contains(ch0, m));
                        }
                        assert forall|m: Seq<u8>| m != element@ && cseq_contains(ch0, m) implies
                            #[trigger] cseq_get(ch3, m) == cseq_get(ch0, m) by {
                            assert(cseq_get(ch1, m) == cseq_get(ch0, m));
                            assert(cseq_contains(ch1, m));
                            assert(cseq_get(ch2, m) == cseq_get(ch1, m));
                            assert(cseq_contains(ch2, m));
                            assert(cseq_get(ch3, m) == cseq_get(ch2, m));
                        }
                    }
                    if descent_outcome(pre_ev, sv, dv, i as int) is Applied {
                        assert(exists|cp: EntryV|
                            #![auto]
                            descent_applied(
                                step_child_of(pre_ev, sv, dv[i as int]),
                                cp,
                                sv,
                                dv,
                                i + 1 as int,
                                name@,
                                entryv,
                            ) && changes_updated(
                                pre_ev->MemTree_changes,
                                entry_view(e)->MemTree_changes,
                                dv[i as int],
                                Some(cp),
                            )) by {
                            assert(descent_applied(
                                step_child_of(pre_ev, sv, dv[i as int]),
                                childv,
                                sv,
                                dv,
                                i + 1 as int,
                                name@,
                                entryv,
                            ));
                            assert(changes_updated(
                                pre_ev->MemTree_changes,
                                entry_view(e)->MemTree_changes,
                                dv[i as int],
                                Some(childv),
                            ));
                        }
                        assert(descent_applied(pre_ev, entry_view(e), sv, dv, i as int, name@, entryv));
                    }
                }
                r
            },
            _ => {
                proof {
                    assert(descent_outcome(old(e)@, sv, dv, i as int) is NotFound);
                }
                Ok(false)
            },
        }
    }
}
/// The clean node a merge side becomes before the children are compared: an
/// unmodified side stays itself; a modified side is the reload of its saved
/// hash, whose stored listing holds exactly the side's non-empty materialized
/// children (when the pruning loads are decided at the starting store).
pub open spec fn side_clean_form(
    orig: EntryV,
    clean: EntryV,
    v0: Map<u64, Seq<u8>>,
    vf: Map<u64, Seq<u8>>,
) -> bool {
    if !is_modified_v(orig) {
        clean == orig
    } else {
        &&& clean is MemTree
        &&& clean->MemTree_base is Some
        &&& clean == treenode_v(clean->MemTree_base->0)
        &&& vf.dom().contains(clean->MemTree_base->0)
        &&& crate::codec::decode_listing(vf[clean->MemTree_base->0]) is Some
        &&& ((children_of(orig, v0) is Some && children_emptiness_defined(orig, v0)) ==> exists|
            vs: Map<u64, Seq<u8>>,
        |
            #![auto]
            {
                &&& crate::store::store_wf(vs)
                &&& crate::store::store_grows(v0, vs)
                &&& children_of(orig, vs) == children_of(orig, v0)
                &&& saved_listing_matches(
                    crate::codec::decode_listing(vf[clean->MemTree_base->0]).unwrap(),
                    children_of(orig, v0).unwrap(),
                    vs,
                )
                &&& forall|n: Seq<u8>| #[trigger]
                    children_of(orig, v0).unwrap().dom().contains(n) ==> is_empty_of(
                        children_of(orig, v0).unwrap()[n],
                        vs,
                    ) == is_empty_of(children_of(orig, v0).unwrap()[n], v0)
            })
    }
}

impl MemoryManifestEntry {
    /// Merge two manifest entries over one store, tracking conflicts. A side
    /// that is modified in memory is first saved and re-read as a clean
    /// baseline, since a merge compares and records only stable, hashed
    /// states. On two clean sides the merge itself writes nothing.
    #[verifier::spinoff_prover]
    #[verifier::rlimit(100)]
    pub fn merge_with_conflicts<S: crate::store::Blobstore>(
        &self,
        other: &Self,
        store: &mut S,
        repo_path: &crate::path::RepoPath,
    ) -> (r: Result<MemoryManifestEntry, ErrorKind>)
        requires
            crate::store::store_wf(old(store).view()),
            entry_wf(self@),
            entry_wf(other@),
            repo_path.wf(),
            !(repo_path is FilePath),
        ensures
            crate::store::store_wf(final(store).view()),
            crate::store::store_grows(old(store).view(), final(store).view()),
            r matches Ok(x) ==> entry_wf(x@),
            (has_conflict(self@) || has_conflict(other@)) ==> r is Err,
            r matches Ok(x) ==> exists|ca: EntryV, cb: EntryV|
                #![auto]
                side_clean_form(self@, ca, old(store).view(), final(store).view())
                    && side_clean_form(other@, cb, old(store).view(), final(store).view())
                    && clean_merge_ok(ca, cb, final(store).view(), x@),
            (!is_modified_v(self@) && !is_modified_v(other@)) ==> {
                &&& final(store).view() == old(store).view()
                &&& ((self@ is Conflict || other@ is Conflict) ==> r == Err::<
                    MemoryManifestEntry,
                    ErrorKind,
                >(ErrorKind::UnresolvedConflicts))
                &&& ((self@ is Blob && other@ is Blob && self@->Blob_0 == other@->Blob_0) ==> (
                r matches Ok(x) && x@ == self@))
                &&& (((self@ is Blob && other@ is Blob && self@->Blob_0 != other@->Blob_0) || (
                self@ is Blob && other@ is MemTree) || (self@ is MemTree && other@ is Blob)) ==> (
                r matches Ok(x) && x@ == EntryV::Conflict(seq![self@, other@])))
                &&& ((self@ is MemTree && other@ is MemTree && self@->MemTree_p1 is Some
                    && self@->MemTree_p2 is Some) ==> r == Err::<MemoryManifestEntry, ErrorKind>(
                    ErrorKind::ManifestAlreadyAMerge(
                        self@->MemTree_p1->0,
                        self@->MemTree_p2->0,
                    ),
                ))
                &&& ((self@ is MemTree && other@ is MemTree && !(self@->MemTree_p1 is Some
                    && self@->MemTree_p2 is Some) && other@->MemTree_p1 is Some
                    && other@->MemTree_p2 is Some) ==> r == Err::<MemoryManifestEntry, ErrorKind>(
                    ErrorKind::ManifestAlreadyAMerge(
                        other@->MemTree_p1->0,
                        other@->MemTree_p2->0,
                    ),
                ))
                &&& ((self@ is MemTree && other@ is MemTree && !(self@->MemTree_p1 is Some
                    && self@->MemTree_p2 is Some) && !(other@->MemTree_p1 is Some
                    && other@->MemTree_p2 is Some) && self@->MemTree_base == other@->MemTree_base)
                    ==> (r matches Ok(x) && x@ == self@))
                &&& ((self@ is MemTree && other@ is MemTree && !(self@->MemTree_p1 is Some
                    && self@->MemTree_p2 is Some) && !(other@->MemTree_p1 is Some
                    && other@->MemTree_p2 is Some)) ==> ((r matches Err(e) ==> e matches
                    ErrorKind::ManifestMissing(_)) && ((is_empty_of(self@, old(store).view())
                    is Some && is_empty_of(other@, old(store).view()) is Some) ==> r is Ok)))
                &&& ((self@ is MemTree && other@ is MemTree && !(self@->MemTree_p1 is Some
                    && self@->MemTree_p2 is Some) && !(other@->MemTree_p1 is Some
                    && other@->MemTree_p2 is Some) && self@->MemTree_base != other@->MemTree_base)
                    ==> (match r {
                    Ok(x) => {
                        let ma = children_of(self@, old(store).view()).unwrap();
                        let mb = children_of(other@, old(store).view()).unwrap();
                        let ch = x@->MemTree_changes;
                        &&& children_of(self@, old(store).view()) is Some
                        &&& children_of(other@, old(store).view()) is Some
                        &&& x@ is MemTree
                        &&& x@->MemTree_base is None
                        &&& x@->MemTree_p1 == self@->MemTree_p1
                        &&& x@->MemTree_p2 == other@->MemTree_p1
                        &&& forall|n: Seq<u8>|
                            #[trigger] cseq_contains(ch, n) <==> (ma.dom().contains(n)
                                || mb.dom().contains(n))
                        &&& forall|n: Seq<u8>|
                            ma.dom().contains(n) && !mb.dom().contains(n) ==> #[trigger] cseq_get(
                                ch,
                                n,
                            ) == Some(ma[n])
                        &&& forall|n: Seq<u8>|
                            !ma.dom().contains(n) && mb.dom().contains(n) ==> #[trigger] cseq_get(
                                ch,
                                n,
                            ) == Some(mb[n])
                        &&& forall|n: Seq<u8>|
                            ma.dom().contains(n) && mb.dom().contains(n) && ma[n] is Blob && mb[n]
                                is Blob && ma[n]->Blob_0 == mb[n]->Blob_0 ==> #[trigger] cseq_get(
                                ch,
                                n,
                            ) == Some(ma[n])
                    },
                    Err(_) => true,
                }))
            },
    {
        let ghost v0 = old(store).view();
        let a = if self.is_modified() {
            let saved = match self.save(store, repo_path) {
                Ok(s) => s,
                Err(e) => {
                    return Err(e);
                },
            };
            MemoryManifestEntry::convert_treenode(saved.hash)
        } else {
            self.clone()
        };
        let ghost v1 = store.view();
        let b = if other.is_modified() {
            let saved = match other.save(store, repo_path) {
                Ok(s) => s,
                Err(e) => {
                    proof {
                        if has_conflict(self@) && !is_modified_v(self@) {
                            assert(self@ is Conflict);
                        }
                    }
                    return Err(e);
                },
            };
            MemoryManifestEntry::convert_treenode(saved.hash)
        } else {
            other.clone()
        };
        let ghost v2 = store.view();
        proof {
            // An unmodified side that carries a conflict is itself a
            // conflict: a tree with no changes holds nothing in memory.
            if has_conflict(self@) && !is_modified_v(self@) {
                assert(self@ is Conflict);
                assert(a@ is Conflict);
            }
            if has_conflict(other@) && !is_modified_v(other@) {
                assert(other@ is Conflict);
                assert(b@ is Conflict);
            }
            // A modified side with a conflict never reaches this point: its
            // save has already failed.
            if is_modified_v(self@) {
                assert(!has_conflict(self@));
            }
            if is_modified_v(other@) {
                assert(!has_conflict(other@));
            }
        }
        let r = a.merge_clean(&b, store);
        proof {
            let vf = store.view();
            if r is Ok {
                assert(side_clean_form(self@, a@, v0, vf)) by {
                    if is_modified_v(self@) {
                        let h = a@->MemTree_base->0;
                        assert(vf[h] == v1[h]);
                        if children_of(self@, v0) is Some && children_emptiness_defined(
                            self@,
                            v0,
                        ) {
                            assert(crate::store::store_grows(v0, v0));
                            assert(children_of(self@, v0) == children_of(self@, v0));
                            assert(saved_listing_matches(
                                crate::codec::decode_listing(vf[h]).unwrap(),
                                children_of(self@, v0).unwrap(),
                                v0,
                            ));
                        }
                    }
                }
                assert(side_clean_form(other@, b@, v0, vf)) by {
                    if is_modified_v(other@) {
                        let h = b@->MemTree_base->0;
                        assert(vf[h] == v2[h]);
                        if children_of(other@, v0) is Some && children_emptiness_defined(
                            other@,
                            v0,
                        ) {
                            lemma_emptiness_defined_stable(other@, v0, v1);
                            assert(children_of(other@, v1) == children_of(other@, v0));
                            assert(saved_listing_matches(
                                crate::codec::decode_listing(vf[h]).unwrap(),
                                children_of(other@, v0).unwrap(),
                                v1,
                            ));
                            assert(crate::store::store_grows(v0, v1));
                        }
                    }
                }
                let x = r->Ok_0;
                assert(clean_merge_ok(a@, b@, vf, x@));
                assert(exists|ca: EntryV, cb: EntryV|
                    #![auto]
                    side_clean_form(self@, ca, v0, vf) && side_clean_form(other@, cb, v0, vf)
                        && clean_merge_ok(ca, cb, vf, x@));
            }
        }
        r
    }
}

} // verus!

verus! {

/// The path-addressed public face of an overlay tree: one root node plus the
/// store it loads from and saves to.
pub struct MemoryRootManifest<S: crate::store::Blobstore> {
    pub blobstore: S,
    pub root_entry: MemoryManifestEntry,
}

impl<S: crate::store::Blobstore> MemoryRootManifest<S> {
    pub open spec fn wf(&self) -> bool {
        &&& crate::store::store_wf(self.blobstore.view())
        &&& entry_wf(self.root_entry@)
    }

    fn create(blobstore: S, root_entry: MemoryManifestEntry) -> (r: MemoryRootManifest<S>)
        ensures
            r.blobstore == blobstore,
            r.root_entry == root_entry,
    {
        MemoryRootManifest { blobstore, root_entry }
    }

    fn create_conflict(blobstore: S, p1_root: MemoryManifestEntry, p2_root: MemoryManifestEntry)
        -> (r: Result<MemoryRootManifest<S>, ErrorKind>)
        requires
            crate::store::store_wf(blobstore.view()),
            entry_wf(p1_root@),
            entry_wf(p2_root@),
        ensures
            r matches Ok(m) ==> m.wf(),
            (p1_root@ is MemTree && p2_root@ is MemTree && !is_modified_v(p1_root@)
                && !is_modified_v(p2_root@) && !(p1_root@->MemTree_p1 is Some
                && p1_root@->MemTree_p2 is Some) && !(p2_root@->MemTree_p1 is Some
                && p2_root@->MemTree_p2 is Some) && p1_root@->MemTree_base
                == p2_root@->MemTree_base) ==> (r matches Ok(m) && m.root_entry@ == p1_root@),
            (p1_root@ is MemTree && p2_root@ is MemTree && !is_modified_v(p1_root@)
                && !is_modified_v(p2_root@) && !(p1_root@->MemTree_p1 is Some
                && p1_root@->MemTree_p2 is Some) && !(p2_root@->MemTree_p1 is Some
                && p2_root@->MemTree_p2 is Some) && p1_root@->MemTree_base
                != p2_root@->MemTree_base) ==> (match r {
                Ok(m) => {
                    &&& m.root_entry@ is MemTree
                    &&& m.root_entry@->MemTree_base is None
                    &&& m.root_entry@->MemTree_p1 == p1_root@->MemTree_p1
                    &&& m.root_entry@->MemTree_p2 == p2_root@->MemTree_p1
                },
                Err(_) => true,
            }),
            (p1_root@ is MemTree && p2_root@ is MemTree && !is_modified_v(p1_root@)
                && !is_modified_v(p2_root@) && !(p1_root@->MemTree_p1 is Some
                && p1_root@->MemTree_p2 is Some) && !(p2_root@->MemTree_p1 is Some
                && p2_root@->MemTree_p2 is Some)) ==> {
                &&& (r matches Err(e) ==> e matches ErrorKind::ManifestMissing(_))
                &&& ((is_empty_of(p1_root@, blobstore.view()) is Some && is_empty_of(
                    p2_root@,
                    blobstore.view(),
                ) is Some) ==> r is Ok)
                &&& (r matches Ok(m) ==> clean_merge_ok(
                    p1_root@,
                    p2_root@,
                    blobstore.view(),
                    m.root_entry@,
                ))
            },
    {
        let mut blobstore = blobstore;
        let root = match p1_root.merge_with_conflicts(
            &p2_root,
            &mut blobstore,
            &crate::path::RepoPath::RootPath,
        ) {
            Ok(root) => root,
            Err(e) => {
                return Err(e);
            },
        };
        Ok(Self::create(blobstore, root))
    }

    /// Build an overlay manifest over a store: with no parents an empty
    /// tree, with one parent that persisted tree, and with two parents the
    /// merge of the two, which may already hold conflicts.
    pub fn new(blobstore: S, mp1: Option<u64>, mp2: Option<u64>) -> (r: Result<
        MemoryRootManifest<S>,
        ErrorKind,
    >)
        requires
            crate::store::store_wf(blobstore.view()),
        ensures
            r matches Ok(m) ==> m.wf(),
            (mp1 is None && mp2 is None) ==> (r matches Ok(m) && m.root_entry@ == (EntryV::MemTree {
                base: None,
                p1: None,
                p2: None,
                changes: Seq::<(Seq<u8>, Option<EntryV>)>::empty(),
            }) && m.blobstore == blobstore),
            ((mp1 is Some && mp2 is None) || (mp1 is None && mp2 is Some)) ==> (r matches Ok(m)
                && m.root_entry@ == (EntryV::MemTree {
                base: Some(if mp1 is Some {
                    mp1->0
                } else {
                    mp2->0
                }),
                p1: Some(if mp1 is Some {
                    mp1->0
                } else {
                    mp2->0
                }),
                p2: None,
                changes: Seq::<(Seq<u8>, Option<EntryV>)>::empty(),
            }) && m.blobstore == blobstore),
            (mp1 is Some && mp2 is Some && mp1 == mp2) ==> (r matches Ok(m) && m.root_entry@ == (
            EntryV::MemTree {
                base: Some(mp1->0),
                p1: Some(mp1->0),
                p2: None,
                changes: Seq::<(Seq<u8>, Option<EntryV>)>::empty(),
            })),
            (mp1 is Some && mp2 is Some && mp1 != mp2) ==> (match r {
                Ok(m) => {
                    &&& m.root_entry@ is MemTree
                    &&& m.root_entry@->MemTree_base is None
                    &&& m.root_entry@->MemTree_p1 == Some(mp1->0)
                    &&& m.root_entry@->MemTree_p2 == Some(mp2->0)
                    &&& clean_merge_ok(
                        treenode_v(mp1->0),
                        treenode_v(mp2->0),
                        blobstore.view(),
                        m.root_entry@,
                    )
                },
                Err(e) => e matches ErrorKind::ManifestMissing(_),
            }),
            (mp1 is Some && mp2 is Some && mp1 != mp2 && is_empty_of(
                treenode_v(mp1->0),
                blobstore.view(),
            ) is Some && is_empty_of(treenode_v(mp2->0), blobstore.view()) is Some) ==> r is Ok,
    {
        match (mp1, mp2) {
            (None, None) => Ok(Self::create(blobstore, MemoryManifestEntry::empty_tree())),
            (Some(p), None) => Ok(
                Self::create(blobstore, MemoryManifestEntry::convert_treenode(p)),
            ),
            (None, Some(p)) => Ok(
                Self::create(blobstore, MemoryManifestEntry::convert_treenode(p)),
            ),
            (Some(p1), Some(p2)) => Self::create_conflict(
                blobstore,
                MemoryManifestEntry::convert_treenode(p1),
                MemoryManifestEntry::convert_treenode(p2),
            ),
        }
    }

    /// Save the whole tree to the store and return the new root entry.
    /// Saving an unmodified root writes nothing and hands back its baseline
    /// hash; a root with any conflict below refuses to save, though a
    /// conflict-free subtree can still be saved on its own through its node.
    pub fn save(&mut self) -> (r: Result<HgBlobEntry, ErrorKind>)
        requires
            old(self).wf(),
        ensures
            final(self).wf(),
            final(self).root_entry == old(self).root_entry,
            crate::store::store_grows(old(self).blobstore.view(), final(self).blobstore.view()),
            has_conflict(old(self).root_entry@) ==> r is Err,
            old(self).root_entry@ is Conflict ==> r == Err::<HgBlobEntry, ErrorKind>(
                ErrorKind::UnresolvedConflicts,
            ),
            (old(self).root_entry@ is MemTree && !is_modified_v(old(self).root_entry@))
                ==> final(self).blobstore.view() == old(self).blobstore.view() && (if old(
                self,
            ).root_entry@->MemTree_p2 is Some {
                r == Err::<HgBlobEntry, ErrorKind>(ErrorKind::UnchangedManifest)
            } else {
                r matches Ok(e) && e@ == (BlobEntryV {
                    name: None,
                    hash: old(self).root_entry@->MemTree_base->0,
                    kind: EntryKind::Tree,
                })
            }),
            (old(self).root_entry@ is MemTree && is_modified_v(old(self).root_entry@)) ==> (match r {
                Ok(e) => {
                    &&& e@.kind == EntryKind::Tree
                    &&& e@.name is None
                    &&& final(self).blobstore.view().dom().contains(e@.hash)
                    &&& (children_emptiness_defined(
                        old(self).root_entry@,
                        old(self).blobstore.view(),
                    ) ==> saved_listing_matches(
                        crate::codec::decode_listing(
                            final(self).blobstore.view()[e@.hash],
                        ).unwrap(),
                        children_of(old(self).root_entry@, old(self).blobstore.view()).unwrap(),
                        old(self).blobstore.view(),
                    ))
                },
                Err(_) => true,
            }),
            (old(self).root_entry@ is MemTree && is_modified_v(old(self).root_entry@)
                && children_of(old(self).root_entry@, old(self).blobstore.view()) is None) ==> r
                == Err::<HgBlobEntry, ErrorKind>(
                ErrorKind::ManifestMissing(old(self).root_entry@->MemTree_base->0),
            ),
            (old(self).root_entry@ is MemTree && is_modified_v(old(self).root_entry@)
                && children_of(old(self).root_entry@, old(self).blobstore.view()) is Some
                && children_emptiness_defined(old(self).root_entry@, old(self).blobstore.view()))
                ==> {
                &&& (r is Err ==> (r == Err::<HgBlobEntry, ErrorKind>(
                    ErrorKind::UnresolvedConflicts,
                ) || r == Err::<HgBlobEntry, ErrorKind>(ErrorKind::UnchangedManifest) || r
                    == Err::<HgBlobEntry, ErrorKind>(ErrorKind::StoreFailure)))
                &&& ((!has_conflict(old(self).root_entry@) && !has_merge_tagged(
                    old(self).root_entry@,
                )) ==> (r is Ok || r == Err::<HgBlobEntry, ErrorKind>(ErrorKind::StoreFailure)))
                &&& ((has_conflict(old(self).root_entry@) && !has_merge_tagged(
                    old(self).root_entry@,
                )) ==> (r == Err::<HgBlobEntry, ErrorKind>(ErrorKind::UnresolvedConflicts) || r
                    == Err::<HgBlobEntry, ErrorKind>(ErrorKind::StoreFailure)))
            },
    {
        let root = crate::path::RepoPath::RootPath;
        self.root_entry.save(&mut self.blobstore, &root)
    }

    /// Apply an add (`Some`) or a remove (`None`) of a leaf at a path,
    /// materializing only the listings along that path. The store is never
    /// written to.
    pub fn change_entry(&mut self, path: &crate::path::MPath, entry: Option<HgBlobEntry>) -> (r:
        Result<(), ErrorKind>)
        requires
            old(self).wf(),
            path.wf(),
            match entry {
                Some(b) => b@.kind != EntryKind::Tree,
                None => true,
            },
        ensures
            final(self).wf(),
            final(self).blobstore.view() == old(self).blobstore.view(),
            final(self).blobstore.reads() <= old(self).blobstore.reads() + (path@.len() - 1),
            (match descent_outcome(
                old(self).root_entry@,
                old(self).blobstore.view(),
                path@.drop_last(),
                0,
            ) {
                DescentOutcome::Applied => r is Ok,
                DescentOutcome::NotFound => (r matches Err(e) && e matches
                    ErrorKind::PathNotFound(p) && p@ == path@),
                DescentOutcome::NotDir => r == Err::<(), ErrorKind>(ErrorKind::NotADirectory),
                DescentOutcome::Missing(h) => r == Err::<(), ErrorKind>(
                    ErrorKind::ManifestMissing(h),
                ),
            }),
            descent_outcome(
                old(self).root_entry@,
                old(self).blobstore.view(),
                path@.drop_last(),
                0,
            ) is Applied ==> descent_applied(
                old(self).root_entry@,
                final(self).root_entry@,
                old(self).blobstore.view(),
                path@.drop_last(),
                0,
                path@.last(),
                match entry {
                    Some(b) => Some(EntryV::Blob(b@)),
                    None => None::<EntryV>,
                },
            ),
    {
        let (dir_path, filename) = path.split_dirname();
        let dirs: Vec<MPathElement> = match dir_path {
            None => Vec::new(),
            Some(p) => p.elems,
        };
        proof {
            assert(dirs_view(dirs@) =~= path@.drop_last());
            assert(filename@ == path@.last());
        }
        let r = change_at(
            &mut self.root_entry,
            &mut self.blobstore,
            &dirs,
            0,
            filename,
            entry,
        );
        match r {
            Ok(true) => Ok(()),
            Ok(false) => Err(ErrorKind::PathNotFound(path.clone())),
            Err(e) => Err(e),
        }
    }
}

} // verus!

verus! {

/// Whether a node is empty under a store: a tree all of whose materialized
/// children are themselves empty. `None` exactly when some load along the
/// way fails. This is the meaning `is_empty` computes.
pub open spec fn is_empty_of(ev: EntryV, v: Map<u64, Seq<u8>>) -> Option<bool>
    decreases max_base_v(ev), depth_v(ev),
    when crate::store::store_wf(v)
    via is_empty_of_decreases
{
    if !(ev is MemTree) {
        Some(false)
    } else {
        match children_of(ev, v) {
            None => None,
            Some(m) => {
                if exists|n: Seq<u8>|
                    #[trigger] m.dom().contains(n) && is_empty_of(m[n], v) is None {
                    None
                } else if forall|n: Seq<u8>|
                    #[trigger] m.dom().contains(n) ==> is_empty_of(m[n], v) == Some(true) {
                    Some(true)
                } else {
                    Some(false)
                }
            },
        }
    }
}

#[via_fn]
proof fn is_empty_of_decreases(ev: EntryV, v: Map<u64, Seq<u8>>) {
    if ev is MemTree && children_of(ev, v) is Some {
        let m = children_of(ev, v).unwrap();
        assert forall|n: Seq<u8>| #[trigger] m.dom().contains(n) implies measure_lt(m[n], ev) by {
            lemma_children_measure(ev, v, n);
        }
    }
}

/// Removing the only entry under a directory makes that directory report
/// empty: a baseline listing holding one name, overlaid with the deletion of
/// that name, materializes to nothing.
pub proof fn lemma_deletion_collapses(ev: EntryV, v: Map<u64, Seq<u8>>, n: Seq<u8>)
    requires
        crate::store::store_wf(v),
        ev is MemTree,
        ev->MemTree_base matches Some(h) && v.dom().contains(h) && listing_map(
            crate::codec::decode_listing(v[h]).unwrap(),
        ).dom() == set![n],
        ev->MemTree_changes =~= seq![(n, None::<EntryV>)],
    ensures
        is_empty_of(ev, v) == Some(true),
{
    let h = ev->MemTree_base->0;
    let l = crate::codec::decode_listing(v[h]).unwrap();
    let base_map = listing_map(l);
    let changes = ev->MemTree_changes;
    assert(changes.drop_last() =~= Seq::<(Seq<u8>, Option<EntryV>)>::empty());
    assert(apply_changes_v(base_map, changes.drop_last()) == base_map);
    assert(apply_changes_v(base_map, changes) =~= base_map.remove(n));
    assert(base_map.remove(n).dom() =~= Set::<Seq<u8>>::empty());
    assert(base_map.remove(n) =~= Map::<Seq<u8>, EntryV>::empty());
    let m = children_of(ev, v).unwrap();
    assert(m =~= Map::<Seq<u8>, EntryV>::empty());
}

} // verus!

verus! {

/// Materialized children do not change when the store grows: present
/// listings are immutable.
pub proof fn lemma_children_of_stable(ev: EntryV, v1: Map<u64, Seq<u8>>, v2: Map<u64, Seq<u8>>)
    requires
        crate::store::store_grows(v1, v2),
        children_of(ev, v1) is Some,
    ensures
        children_of(ev, v2) == children_of(ev, v1),
{
}

/// Emptiness, once decided, does not change when the store grows.
pub proof fn lemma_is_empty_of_stable(ev: EntryV, v1: Map<u64, Seq<u8>>, v2: Map<u64, Seq<u8>>)
    requires
        crate::store::store_wf(v1),
        crate::store::store_wf(v2),
        crate::store::store_grows(v1, v2),
        is_empty_of(ev, v1) is Some,
    ensures
        is_empty_of(ev, v2) == is_empty_of(ev, v1),
    decreases max_base_v(ev), depth_v(ev),
{
    if ev is MemTree {
        lemma_children_of_stable(ev, v1, v2);
        let m = children_of(ev, v1).unwrap();
        assert forall|n: Seq<u8>| #[trigger] m.dom().contains(n) implies is_empty_of(m[n], v2)
            == is_empty_of(m[n], v1) by {
            lemma_children_measure(ev, v1, n);
            assert(is_empty_of(m[n], v1) is Some);
            lemma_is_empty_of_stable(m[n], v1, v2);
        }
    }
}

} // verus!

verus! {

/// The first listing entry under a name, if any.
pub open spec fn listing_find(l: Seq<crate::codec::ListingEntryV>, name: Seq<u8>) -> Option<
    crate::codec::ListingEntryV,
>
    decreases l.len(),
{
    if l.len() == 0 {
        None
    } else if l[0].name == name {
        Some(l[0])
    } else {
        listing_find(l.skip(1), name)
    }
}

pub proof fn lemma_listing_find_at(l: Seq<crate::codec::ListingEntryV>, k: int, name: Seq<u8>)
    requires
        0 <= k < l.len(),
        l[k].name == name,
        forall|j: int| 0 <= j < k ==> (#[trigger] l[j]).name != name,
    ensures
        listing_find(l, name) == Some(l[k]),
    decreases k,
{
    if k > 0 {
        lemma_listing_find_at(l.skip(1), k - 1, name);
        assert(forall|j: int| 0 <= j < k - 1 ==> l.skip(1)[j] == l[j + 1]);
    }
}

pub proof fn lemma_listing_find_none(l: Seq<crate::codec::ListingEntryV>, name: Seq<u8>)
    requires
        forall|j: int| 0 <= j < l.len() ==> (#[trigger] l[j]).name != name,
    ensures
        listing_find(l, name) is None,
    decreases l.len(),
{
    if l.len() > 0 {
        lemma_listing_find_none(l.skip(1), name);
    }
}

/// A fresh empty overlay node.
pub open spec fn empty_tree_v() -> EntryV {
    EntryV::MemTree {
        base: None,
        p1: None,
        p2: None,
        changes: Seq::<(Seq<u8>, Option<EntryV>)>::empty(),
    }
}

/// What descending into a conflict leaves in its place: a fresh two-parent
/// tree over the first two tree-typed candidates. Anything else passes
/// through. The meaning of `conflict_to_memtree`.
pub open spec fn coerce_v(ev: EntryV) -> EntryV {
    if ev is Conflict {
        let ps = candidate_parents(ev->Conflict_0, ev->Conflict_0.len() as int);
        EntryV::MemTree {
            base: None,
            p1: if ps.len() >= 1 {
                Some(ps[0])
            } else {
                None
            },
            p2: if ps.len() >= 2 {
                Some(ps[1])
            } else {
                None
            },
            changes: Seq::<(Seq<u8>, Option<EntryV>)>::empty(),
        }
    } else {
        ev
    }
}

/// The child a descent enters under `element` at a tree node: the cached
/// binding if there is one (a deletion marker or an absent name becomes a
/// fresh empty tree), otherwise the single baseline listing entry of that
/// name, converted; a conflict met on the way is coerced.
pub open spec fn step_child_of(ev: EntryV, v: Map<u64, Seq<u8>>, element: Seq<u8>) -> EntryV {
    let changes = ev->MemTree_changes;
    let base = ev->MemTree_base;
    coerce_v(
        if cseq_contains(changes, element) {
            match cseq_get(changes, element) {
                Some(c) => c,
                None => empty_tree_v(),
            }
        } else {
            match base {
                None => empty_tree_v(),
                Some(h) => if v.dom().contains(h) && crate::codec::decode_listing(v[h]) is Some {
                    match listing_find(crate::codec::decode_listing(v[h]).unwrap(), element) {
                        Some(le) => conv_v(le),
                        None => empty_tree_v(),
                    }
                } else {
                    empty_tree_v()
                },
            }
        },
    )
}

/// How a path-addressed change ends: applied at the final tree, refused
/// because the descent ran through a non-tree, refused because the final node
/// is no tree, or stopped by an unresolvable baseline hash.
pub enum DescentOutcome {
    Applied,
    NotFound,
    NotDir,
    Missing(u64),
}

/// The outcome of descending `dirs[i..]` from `ev` and changing the final
/// name there.
pub open spec fn descent_outcome(
    ev: EntryV,
    v: Map<u64, Seq<u8>>,
    dirs: Seq<Seq<u8>>,
    i: int,
) -> DescentOutcome
    decreases dirs.len() - i,
{
    if i < 0 || i >= dirs.len() {
        if ev is MemTree {
            DescentOutcome::Applied
        } else {
            DescentOutcome::NotDir
        }
    } else {
        match ev {
            EntryV::MemTree { base, changes, .. } => {
                if !cseq_contains(changes, dirs[i]) && base is Some && !v.dom().contains(
                    base->0,
                ) {
                    DescentOutcome::Missing(base->0)
                } else {
                    descent_outcome(step_child_of(ev, v, dirs[i]), v, dirs, i + 1)
                }
            },
            _ => DescentOutcome::NotFound,
        }
    }
}

/// `post` binds `key` to `val` and keeps every other binding of `pre`.
pub open spec fn changes_updated(
    pre: Seq<(Seq<u8>, Option<EntryV>)>,
    post: Seq<(Seq<u8>, Option<EntryV>)>,
    key: Seq<u8>,
    val: Option<EntryV>,
) -> bool {
    &&& cseq_contains(post, key)
    &&& cseq_get(post, key) == val
    &&& forall|m: Seq<u8>|
        m != key ==> (#[trigger] cseq_contains(post, m)) == cseq_contains(pre, m)
    &&& forall|m: Seq<u8>|
        m != key && cseq_contains(pre, m) ==> #[trigger] cseq_get(post, m) == cseq_get(pre, m)
}

/// What an applied change does to the tree, level by level: at the final
/// directory the name is bound to the given entry, and on the way down each
/// node keeps its identity, binds the walked component to the (loaded,
/// created or coerced) child the descent continued in, and leaves every other
/// binding alone.
pub open spec fn descent_applied(
    pre: EntryV,
    post: EntryV,
    v: Map<u64, Seq<u8>>,
    dirs: Seq<Seq<u8>>,
    i: int,
    name: Seq<u8>,
    entry: Option<EntryV>,
) -> bool
    decreases dirs.len() - i,
{
    &&& pre is MemTree
    &&& post is MemTree
    &&& post->MemTree_base == pre->MemTree_base
    &&& post->MemTree_p1 == pre->MemTree_p1
    &&& post->MemTree_p2 == pre->MemTree_p2
    &&& if i < 0 || i >= dirs.len() {
        changes_updated(pre->MemTree_changes, post->MemTree_changes, name, entry)
    } else {
        exists|child_post: EntryV|
            #![auto]
            descent_applied(step_child_of(pre, v, dirs[i]), child_post, v, dirs, i + 1, name, entry)
                && changes_updated(
                pre->MemTree_changes,
                post->MemTree_changes,
                dirs[i],
                Some(child_post),
            )
    }
}

pub open spec fn dirs_view(s: Seq<MPathElement>) -> Seq<Seq<u8>> {
    s.map_values(|e: MPathElement| e@)
}

} // verus!

verus! {

/// Whether a merge-tagged node with a baseline and no changes sits anywhere
/// in the in-memory part of an entry. Saving such a node is refused as
/// `UnchangedManifest`, so a tree free of them (and of conflicts) is owed a
/// successful save, up to a refused store write. Purely structural: loaded
/// children never carry a second parent.
pub open spec fn has_merge_tagged(ev: EntryV) -> bool
    decreases ev, 1int,
{
    match ev {
        EntryV::Blob(_) => false,
        EntryV::Conflict(_) => false,
        EntryV::MemTree { changes, .. } => cseq_has_merge_tagged(changes, changes.len() as int),
    }
}

pub open spec fn merge_tagged_shape(ev: EntryV) -> bool {
    ev is MemTree && ev->MemTree_base is Some && ev->MemTree_p2 is Some
        && ev->MemTree_changes.len() == 0
}

pub open spec fn cseq_has_merge_tagged(s: Seq<(Seq<u8>, Option<EntryV>)>, n: int) -> bool
    decreases s, 0int, n,
{
    if n <= 0 || n > s.len() {
        false
    } else {
        (match s[n - 1].1 {
            Some(c) => merge_tagged_shape(c) || has_merge_tagged(c),
            None => false,
        }) || cseq_has_merge_tagged(s, n - 1)
    }
}

pub proof fn lemma_cseq_has_merge_tagged(s: Seq<(Seq<u8>, Option<EntryV>)>, n: int)
    requires
        0 <= n <= s.len(),
    ensures
        cseq_has_merge_tagged(s, n) <==> exists|i: int|
            0 <= i < n && (#[trigger] s[i]).1 is Some && (merge_tagged_shape(s[i].1->0)
                || has_merge_tagged(s[i].1->0)),
    decreases n,
{
    if n > 0 {
        lemma_cseq_has_merge_tagged(s, n - 1);
        if cseq_has_merge_tagged(s, n) && !cseq_has_merge_tagged(s, n - 1) {
            assert(s[n - 1].1 is Some && (merge_tagged_shape(s[n - 1].1->0) || has_merge_tagged(
                s[n - 1].1->0,
            )));
        }
    }
}

/// Every value a listing materializes to is conflict-free, untagged, and
/// carries no second parent.
proof fn lemma_loaded_value_plain(l: Seq<crate::codec::ListingEntryV>, n: Seq<u8>)
    requires
        listing_map(l).dom().contains(n),
    ensures
        !has_conflict(listing_map(l)[n]),
        !has_merge_tagged(listing_map(l)[n]),
        !merge_tagged_shape(listing_map(l)[n]),
        !(listing_map(l)[n] is Conflict),
        listing_map(l)[n] is MemTree ==> listing_map(l)[n]->MemTree_p2 is None,
{
    lemma_listing_map_val(l, n);
    let i = choose|i: int|
        0 <= i < l.len() && (#[trigger] l[i]).name == n && listing_map(l)[n] == conv_v(l[i]);
}

/// A conflict or tag among the materialized children shows up in the parent's
/// own predicate; contrapositively, a clean parent has clean children.
pub proof fn lemma_child_clean(ev: EntryV, v: Map<u64, Seq<u8>>, n: Seq<u8>)
    requires
        entry_wf(ev),
        ev is MemTree,
        children_of(ev, v) is Some,
        children_of(ev, v).unwrap().dom().contains(n),
    ensures
        has_conflict(children_of(ev, v).unwrap()[n]) ==> has_conflict(ev),
        children_of(ev, v).unwrap()[n] is Conflict ==> has_conflict(ev),
        (merge_tagged_shape(children_of(ev, v).unwrap()[n]) || has_merge_tagged(
            children_of(ev, v).unwrap()[n],
        )) ==> has_merge_tagged(ev),
{
    let changes = ev->MemTree_changes;
    let base = ev->MemTree_base;
    let m = children_of(ev, v).unwrap();
    let base_map: Map<Seq<u8>, EntryV> = match base {
        None => Map::empty(),
        Some(h) => listing_map(crate::codec::decode_listing(v[h]).unwrap()),
    };
    lemma_apply_changes_val(base_map, changes, n);
    lemma_cseq_has_conflict(changes, changes.len() as int);
    lemma_cseq_has_merge_tagged(changes, changes.len() as int);
    if exists|i: int|
        0 <= i < changes.len() && (#[trigger] changes[i]).0 == n && changes[i].1 == Some(m[n]) {
        let i = choose|i: int|
            0 <= i < changes.len() && (#[trigger] changes[i]).0 == n && changes[i].1 == Some(
                m[n],
            );
        if m[n] is Conflict {
            assert(has_conflict(m[n]));
        }
    } else {
        let h = base->0;
        let l = crate::codec::decode_listing(v[h]).unwrap();
        lemma_loaded_value_plain(l, n);
    }
}

/// Emptiness that is decided everywhere stays decided everywhere as the
/// store grows.
pub proof fn lemma_emptiness_defined_stable(ev: EntryV, v1: Map<u64, Seq<u8>>, v2: Map<u64, Seq<u8>>)
    requires
        crate::store::store_wf(v1),
        crate::store::store_wf(v2),
        crate::store::store_grows(v1, v2),
        children_of(ev, v1) is Some,
        children_emptiness_defined(ev, v1),
    ensures
        children_of(ev, v2) == children_of(ev, v1),
        children_emptiness_defined(ev, v2),
        forall|n: Seq<u8>| #[trigger] children_of(ev, v1).unwrap().dom().contains(n)
            ==> is_empty_of(children_of(ev, v1).unwrap()[n], v2) == is_empty_of(
            children_of(ev, v1).unwrap()[n],
            v1,
        ),
{
    lemma_children_of_stable(ev, v1, v2);
    let m = children_of(ev, v1).unwrap();
    assert forall|n: Seq<u8>| #[trigger] m.dom().contains(n) implies is_empty_of(m[n], v2)
        == is_empty_of(m[n], v1) by {
        lemma_is_empty_of_stable(m[n], v1, v2);
    }
}

/// A node whose emptiness is decided has every load its save needs decided
/// too.
pub proof fn lemma_is_empty_defined(ev: EntryV, v: Map<u64, Seq<u8>>)
    requires
        crate::store::store_wf(v),
        ev is MemTree,
        is_empty_of(ev, v) is Some,
    ensures
        children_of(ev, v) is Some,
        children_emptiness_defined(ev, v),
{
}

} // verus!
