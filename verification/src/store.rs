use vstd::prelude::*;
use crate::codec::{EntryKind, ListingEntryV, decode_listing};
use crate::errors::ErrorKind;

verus! {

/// Every tree-typed entry of `l` points below `bound`.
pub open spec fn listing_tree_refs_lt(l: Seq<ListingEntryV>, bound: u64) -> bool {
    forall|i: int|
        0 <= i < l.len() ==> ((#[trigger] l[i]).kind == EntryKind::Tree ==> l[i].hash < bound)
}

/// Every tree-typed entry of `l` points at a stored listing.
pub open spec fn listing_refs_present(l: Seq<ListingEntryV>, v: Map<u64, Seq<u8>>) -> bool {
    forall|i: int|
        0 <= i < l.len() ==> ((#[trigger] l[i]).kind == EntryKind::Tree ==> v.dom().contains(
            l[i].hash,
        ))
}

/// A well-formed tree store: finitely many listings under positive hashes,
/// every stored value decodes, tree references point strictly downwards
/// (which rules out reference cycles), and no two hashes hold the same bytes
/// (content addressing).
pub open spec fn store_wf(v: Map<u64, Seq<u8>>) -> bool {
    &&& v.dom().finite()
    &&& forall|k: u64| #[trigger] v.dom().contains(k) ==> k >= 1
    &&& forall|k: u64| #[trigger] v.dom().contains(k) ==> decode_listing(v[k]) is Some
    &&& forall|k: u64| #[trigger]
        v.dom().contains(k) ==> listing_tree_refs_lt(decode_listing(v[k]).unwrap(), k)
    &&& forall|k1: u64, k2: u64|
        v.dom().contains(k1) && v.dom().contains(k2) && v[k1] == v[k2] ==> k1 == k2
}

/// `b` extends `a` without touching what `a` already stores.
pub open spec fn store_grows(a: Map<u64, Seq<u8>>, b: Map<u64, Seq<u8>>) -> bool {
    forall|k: u64| #[trigger] a.dom().contains(k) ==> b.dom().contains(k) && b[k] == a[k]
}

/// In a well-formed store the same bytes never sit under two hashes, so a
/// write of bytes that are already present is owed their existing hash: the
/// store stays as it is. This is what makes repeated saves of identical
/// content converge on one hash.
pub proof fn lemma_store_content_key_unique(v: Map<u64, Seq<u8>>, k1: u64, k2: u64)
    requires
        store_wf(v),
        v.dom().contains(k1),
        v.dom().contains(k2),
        v[k1] == v[k2],
    ensures
        k1 == k2,
{
}

/// The content-addressed tree store, seen as a map from hash to listing
/// bytes. The engine reads baselines from it and writes new subtrees to it.
pub trait Blobstore: Sized {
    spec fn view(&self) -> Map<u64, Seq<u8>>;

    /// How many reads this store has served; each `get` is one read, a `put`
    /// is none. Callers bound their listing loads with it.
    spec fn reads(&self) -> nat;

    /// Fetch the bytes stored under a hash. Read-only; `None` exactly when
    /// the hash is absent.
    fn get(&mut self, h: u64) -> (r: Option<Vec<u8>>)
        ensures
            final(self).view() == old(self).view(),
            final(self).reads() == old(self).reads() + 1,
            match r {
                Some(b) => final(self).view().dom().contains(h) && b@ == final(self).view()[h],
                None => !final(self).view().dom().contains(h),
            },
    ;

    /// Store listing bytes and return their hash. Content-addressed: bytes
    /// already present come back under their existing hash with the store
    /// untouched; fresh bytes get a hash above every stored one. A store may
    /// refuse a write, but then it is unchanged and says so with
    /// `StoreFailure`.
    fn put(&mut self, bytes: Vec<u8>) -> (r: Result<u64, ErrorKind>)
        requires
            store_wf(old(self).view()),
            decode_listing(bytes@) is Some,
            listing_refs_present(decode_listing(bytes@).unwrap(), old(self).view()),
        ensures
            store_wf(final(self).view()),
            store_grows(old(self).view(), final(self).view()),
            final(self).reads() == old(self).reads(),
            match r {
                Ok(h) => {
                    &&& final(self).view().dom().contains(h)
                    &&& final(self).view()[h] == bytes@
                    &&& forall|k: u64| #[trigger]
                        final(self).view().dom().contains(k) ==> old(self).view().dom().contains(
                            k,
                        ) || k == h
                    &&& (exists|k: u64|
                        #[trigger] old(self).view().dom().contains(k) && old(self).view()[k]
                            == bytes@) ==> old(self).view().dom().contains(h) && final(self).view()
                        == old(self).view()
                },
                Err(e) => final(self).view() == old(self).view() && e
                    == ErrorKind::StoreFailure,
            },
    ;
}

/// The map held by an association list of (hash, bytes) pairs; later pairs
/// win, though the store keeps its keys unique anyway.
pub open spec fn pairs_map(s: Seq<(u64, Vec<u8>)>) -> Map<u64, Seq<u8>>
    decreases s.len(),
{
    if s.len() == 0 {
        Map::empty()
    } else {
        pairs_map(s.drop_last()).insert(s.last().0, s.last().1@)
    }
}

pub open spec fn pairs_keys_unique(s: Seq<(u64, Vec<u8>)>) -> bool {
    forall|i: int, j: int| 0 <= i < j < s.len() ==> (#[trigger] s[i]).0 != (#[trigger] s[j]).0
}

proof fn lemma_pairs_map_index(s: Seq<(u64, Vec<u8>)>, i: int)
    requires
        pairs_keys_unique(s),
        0 <= i < s.len(),
    ensures
        pairs_map(s).dom().contains(s[i].0),
        pairs_map(s)[s[i].0] == s[i].1@,
    decreases s.len(),
{
    if i < s.len() - 1 {
        lemma_pairs_map_index(s.drop_last(), i);
        assert(s.drop_last()[i] == s[i]);
        assert(s[i].0 != s.last().0);
    }
}

proof fn lemma_pairs_map_dom(s: Seq<(u64, Vec<u8>)>, k: u64)
    requires
        pairs_map(s).dom().contains(k),
    ensures
        exists|i: int| 0 <= i < s.len() && (#[trigger] s[i]).0 == k,
    decreases s.len(),
{
    if s.len() > 0 {
        if s.last().0 == k {
            assert(s[s.len() - 1].0 == k);
        } else {
            lemma_pairs_map_dom(s.drop_last(), k);
            let i = choose|i: int| 0 <= i < s.drop_last().len() && (#[trigger] s.drop_last()[
                i
            ]).0 == k;
            assert(s[i].0 == k);
        }
    }
}

proof fn lemma_pairs_map_finite(s: Seq<(u64, Vec<u8>)>)
    ensures
        pairs_map(s).dom().finite(),
    decreases s.len(),
{
    if s.len() > 0 {
        lemma_pairs_map_finite(s.drop_last());
    }
}

/// An in-memory content-addressed tree store: hashes are handed out as a
/// rising counter, and every read is counted, which lets a caller observe how
/// many listings an operation fetched.
pub struct MemBlobstore {
    entries: Vec<(u64, Vec<u8>)>,
    next: u64,
    reads: u64,
    reads_ghost: Ghost<nat>,
}

impl MemBlobstore {
    #[verifier::type_invariant]
    spec fn inv(self) -> bool {
        &&& self.next >= 1
        &&& pairs_keys_unique(self.entries@)
        &&& forall|i: int|
            0 <= i < self.entries@.len() ==> 1 <= (#[trigger] self.entries@[i]).0
                < self.next
    }

    /// A fresh, empty store.
    pub fn new() -> (r: MemBlobstore)
        ensures
            r.view() == Map::<u64, Seq<u8>>::empty(),
            store_wf(r.view()),
            r.spec_read_count() == 0,
    {
        let r = MemBlobstore { entries: Vec::new(), next: 1, reads: 0, reads_ghost: Ghost(0) };
        proof {
            assert(r.view() =~= Map::<u64, Seq<u8>>::empty());
        }
        r
    }

    /// How many reads this store has served.
    pub fn read_count(&self) -> (r: u64)
        ensures
            r == self.spec_read_count(),
    {
        self.reads
    }

    pub closed spec fn spec_read_count(&self) -> u64 {
        self.reads
    }
}

impl Blobstore for MemBlobstore {
    closed spec fn view(&self) -> Map<u64, Seq<u8>> {
        pairs_map(self.entries@)
    }

    closed spec fn reads(&self) -> nat {
        self.reads_ghost@
    }

    fn get(&mut self, h: u64) -> (r: Option<Vec<u8>>) {
        proof {
            use_type_invariant(&*self);
        }
        if self.reads < u64::MAX {
            self.reads = self.reads + 1;
        }
        self.reads_ghost = Ghost(self.reads_ghost@ + 1);
        let mut i: usize = 0;
        while i < self.entries.len()
            invariant
                i <= self.entries@.len(),
                self.entries@ == old(self).entries@,
                self.reads_ghost@ == old(self).reads_ghost@ + 1,
                pairs_keys_unique(self.entries@),
                forall|j: int| 0 <= j < i ==> (#[trigger] self.entries@[j]).0 != h,
            decreases self.entries@.len() - i,
        {
            if self.entries[i].0 == h {
                let bytes = self.entries[i].1.clone();
                proof {
                    assert(bytes@ =~= self.entries@[i as int].1@);
                    lemma_pairs_map_index(self.entries@, i as int);
                }
                return Some(bytes);
            }
            i = i + 1;
        }
        proof {
            if pairs_map(self.entries@).dom().contains(h) {
                lemma_pairs_map_dom(self.entries@, h);
            }
        }
        None
    }

    fn put(&mut self, bytes: Vec<u8>) -> (r: Result<u64, ErrorKind>) {
        proof {
            use_type_invariant(&*self);
        }
        let mut i: usize = 0;
        while i < self.entries.len()
            invariant
                i <= self.entries@.len(),
                self == old(self),
                store_wf(self.view()),
                pairs_keys_unique(self.entries@),
                forall|j: int| 0 <= j < i ==> (#[trigger] self.entries@[j]).1@ != bytes@,
            decreases self.entries@.len() - i,
        {
            if crate::path::bytes_eq_exec(&self.entries[i].1, &bytes) {
                let h = self.entries[i].0;
                proof {
                    lemma_pairs_map_index(self.entries@, i as int);
                }
                return Ok(h);
            }
            i = i + 1;
        }
        if self.next == u64::MAX {
            // The key space is exhausted; refuse the write.
            proof {
                if exists|k: u64|
                    #[trigger] self.view().dom().contains(k) && self.view()[k] == bytes@ {
                    let k = choose|k: u64|
                        #[trigger] self.view().dom().contains(k) && self.view()[k] == bytes@;
                    lemma_pairs_map_dom(self.entries@, k);
                    let j = choose|j: int|
                        0 <= j < self.entries@.len() && (#[trigger] self.entries@[j]).0 == k;
                    lemma_pairs_map_index(self.entries@, j);
                }
            }
            return Err(ErrorKind::StoreFailure);
        }
        let h = self.next;
        let ghost old_entries = self.entries@;
        let ghost old_view = pairs_map(self.entries@);
        let mut taken = MemBlobstore { entries: Vec::new(), next: 1, reads: 0, reads_ghost: Ghost(0) };
        core::mem::swap(self, &mut taken);
        let MemBlobstore { mut entries, next, reads, reads_ghost } = taken;
        proof {
            // The bytes are nowhere in the store.
            if exists|k: u64| #[trigger] old_view.dom().contains(k) && old_view[k] == bytes@ {
                let k = choose|k: u64|
                    #[trigger] old_view.dom().contains(k) && old_view[k] == bytes@;
                lemma_pairs_map_dom(old_entries, k);
                let j = choose|j: int|
                    0 <= j < old_entries.len() && (#[trigger] old_entries[j]).0 == k;
                lemma_pairs_map_index(old_entries, j);
            }
            if old_view.dom().contains(h) {
                lemma_pairs_map_dom(old_entries, h);
            }
        }
        entries.push((h, bytes));
        proof {
            assert(entries@.drop_last() =~= old_entries);
            assert(pairs_keys_unique(entries@));
        }
        let mut rebuilt = MemBlobstore { entries, next: next + 1, reads, reads_ghost };
        core::mem::swap(self, &mut rebuilt);
        proof {
            assert(self.entries@.drop_last() =~= old_entries);
            assert(self.view() =~= old_view.insert(h, self.entries@.last().1@));
            assert forall|k: u64| #[trigger] self.view().dom().contains(k) implies
                old_view.dom().contains(k) || k == h by {}
            assert(store_wf(self.view())) by {
                lemma_pairs_map_finite(self.entries@);
                assert forall|k: u64| #[trigger] self.view().dom().contains(k) && k != h implies
                    old_view.dom().contains(k) && self.view()[k] == old_view[k] by {}
                assert forall|k: u64| #[trigger] old_view.dom().contains(k) implies k < h by {
                    lemma_pairs_map_dom(old_entries, k);
                    let j = choose|j: int|
                        0 <= j < old_entries.len() && (#[trigger] old_entries[j]).0 == k;
                }
                assert forall|k1: u64, k2: u64|
                    self.view().dom().contains(k1) && self.view().dom().contains(k2)
                        && self.view()[k1] == self.view()[k2] implies k1 == k2 by {
                    if k1 != k2 {
                        if k1 == h {
                            assert(old_view.dom().contains(k2) && old_view[k2] == bytes@);
                        } else if k2 == h {
                            assert(old_view.dom().contains(k1) && old_view[k1] == bytes@);
                        }
                    }
                }
            }
        }
        Ok(h)
    }
}

} // verus!
