use vstd::prelude::*;
use crate::path::{RepoPath, RepoPathV};

verus! {

/// The mathematical value of a filenode record without its linknode.
pub struct IncompleteFilenodeInfoV {
    pub path: RepoPathV,
    pub filenode: u64,
    pub p1: Option<u64>,
    pub p2: Option<u64>,
    pub copyfrom: Option<(RepoPathV, u64)>,
}

/// The mathematical value of a complete filenode record.
pub struct FilenodeInfoV {
    pub path: RepoPathV,
    pub filenode: u64,
    pub p1: Option<u64>,
    pub p2: Option<u64>,
    pub copyfrom: Option<(RepoPathV, u64)>,
    pub linknode: u64,
}

/// A filenode record collected while building manifests, before the owning
/// changeset (the linknode) is known.
#[derive(Debug)]
pub struct IncompleteFilenodeInfo {
    pub path: RepoPath,
    pub filenode: u64,
    pub p1: Option<u64>,
    pub p2: Option<u64>,
    pub copyfrom: Option<(RepoPath, u64)>,
}

/// A filenode record ready to be written out.
#[derive(Debug)]
pub struct FilenodeInfo {
    pub path: RepoPath,
    pub filenode: u64,
    pub p1: Option<u64>,
    pub p2: Option<u64>,
    pub copyfrom: Option<(RepoPath, u64)>,
    pub linknode: u64,
}

impl View for IncompleteFilenodeInfo {
    type V = IncompleteFilenodeInfoV;

    open spec fn view(&self) -> IncompleteFilenodeInfoV {
        IncompleteFilenodeInfoV {
            path: self.path@,
            filenode: self.filenode,
            p1: self.p1,
            p2: self.p2,
            copyfrom: match self.copyfrom {
                Some((p, h)) => Some((p@, h)),
                None => None,
            },
        }
    }
}

impl View for FilenodeInfo {
    type V = FilenodeInfoV;

    open spec fn view(&self) -> FilenodeInfoV {
        FilenodeInfoV {
            path: self.path@,
            filenode: self.filenode,
            p1: self.p1,
            p2: self.p2,
            copyfrom: match self.copyfrom {
                Some((p, h)) => Some((p@, h)),
                None => None,
            },
            linknode: self.linknode,
        }
    }
}

/// What an incomplete record becomes once its linknode is known.
pub open spec fn spec_with_linknode(i: IncompleteFilenodeInfoV, linknode: u64) -> FilenodeInfoV {
    FilenodeInfoV {
        path: i.path,
        filenode: i.filenode,
        p1: i.p1,
        p2: i.p2,
        copyfrom: i.copyfrom,
        linknode,
    }
}

impl Clone for IncompleteFilenodeInfo {
    fn clone(&self) -> (r: Self)
        ensures
            r@ == self@,
    {
        IncompleteFilenodeInfo {
            path: self.path.clone(),
            filenode: self.filenode,
            p1: self.p1,
            p2: self.p2,
            copyfrom: match &self.copyfrom {
                Some((p, h)) => Some((p.clone(), *h)),
                None => None,
            },
        }
    }
}

impl IncompleteFilenodeInfo {
    /// Complete the record with the changeset that owns it.
    pub fn with_linknode(self, linknode: u64) -> (r: FilenodeInfo)
        ensures
            r@ == spec_with_linknode(self@, linknode),
    {
        let IncompleteFilenodeInfo { path, filenode, p1, p2, copyfrom } = self;
        FilenodeInfo { path, filenode, p1, p2, copyfrom, linknode }
    }
}

/// The filenode records accumulated during one manifest build. One caller
/// owns the collection and hands out mutable access.
#[derive(Debug)]
pub struct IncompleteFilenodes {
    filenodes: Vec<IncompleteFilenodeInfo>,
}

impl IncompleteFilenodes {
    pub closed spec fn view(&self) -> Seq<IncompleteFilenodeInfoV> {
        self.filenodes@.map_values(|f: IncompleteFilenodeInfo| f@)
    }

    /// An empty collection.
    pub fn new() -> (r: IncompleteFilenodes)
        ensures
            r@ == Seq::<IncompleteFilenodeInfoV>::empty(),
    {
        let r = IncompleteFilenodes { filenodes: Vec::new() };
        proof {
            assert(r@ =~= Seq::<IncompleteFilenodeInfoV>::empty());
        }
        r
    }

    /// Record one more filenode.
    pub fn add(&mut self, filenode: IncompleteFilenodeInfo)
        ensures
            final(self)@ == old(self)@.push(filenode@),
    {
        let ghost v = filenode@;
        self.filenodes.push(filenode);
        proof {
            assert(self@ =~= old(self)@.push(v));
        }
    }

    /// Drain the collected records, completing each with the given linknode.
    /// This is the computing half of an upload; sending the result to the
    /// filenode store stays with the caller.
    pub fn drain_with_linknode(&mut self, linknode: u64) -> (r: Vec<FilenodeInfo>)
        ensures
            final(self)@ == Seq::<IncompleteFilenodeInfoV>::empty(),
            r@.map_values(|f: FilenodeInfo| f@) == old(self)@.map_values(
                |i: IncompleteFilenodeInfoV| spec_with_linknode(i, linknode),
            ),
    {
        let mut taken: Vec<IncompleteFilenodeInfo> = Vec::new();
        core::mem::swap(&mut self.filenodes, &mut taken);
        let mut out: Vec<FilenodeInfo> = Vec::new();
        let ghost pre = taken@.map_values(|f: IncompleteFilenodeInfo| f@);
        let n = taken.len();
        let mut i: usize = 0;
        while i < n
            invariant
                i <= n,
                n == taken@.len(),
                pre == taken@.map_values(|f: IncompleteFilenodeInfo| f@),
                out@.len() == i,
                forall|j: int|
                    0 <= j < i ==> (#[trigger] out@[j])@ == spec_with_linknode(pre[j], linknode),
            decreases n - i,
        {
            let f = taken[i].clone();
            proof {
                assert(f@ == pre[i as int]);
            }
            out.push(f.with_linknode(linknode));
            i = i + 1;
        }
        proof {
            assert(self@ =~= Seq::<IncompleteFilenodeInfoV>::empty());
            assert(out@.map_values(|f: FilenodeInfo| f@) =~= old(self)@.map_values(
                |x: IncompleteFilenodeInfoV| spec_with_linknode(x, linknode),
            ));
        }
        out
    }
}

} // verus!
