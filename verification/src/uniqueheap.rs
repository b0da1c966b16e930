use vstd::prelude::*;

verus! {

/// A max-heap that holds each value at most once. Kept as a strictly
/// ascending vector, so the maximum sits at the end and membership is the
/// membership of the vector.
pub struct UniqueHeap {
    sorted_vals: Vec<u64>,
}

impl UniqueHeap {
    pub closed spec fn view(&self) -> Seq<u64> {
        self.sorted_vals@
    }

    /// Whether the heap holds `x`.
    pub open spec fn spec_contains(&self, x: u64) -> bool {
        self@.contains(x)
    }

    /// The values sit in strictly ascending order, so each occurs once.
    pub open spec fn wf(&self) -> bool {
        forall|i: int, j: int| 0 <= i < j < self@.len() ==> self@[i] < self@[j]
    }

    /// An empty heap.
    pub fn new() -> (r: UniqueHeap)
        ensures
            r.wf(),
            r@ == Seq::<u64>::empty(),
    {
        let r = UniqueHeap { sorted_vals: Vec::new() };
        proof {
            assert(r@ =~= Seq::<u64>::empty());
        }
        r
    }

    /// Insert a value; a value already present is left alone, so the heap
    /// never holds duplicates.
    pub fn push(&mut self, val: u64)
        requires
            old(self).wf(),
        ensures
            final(self).wf(),
            final(self).spec_contains(val),
            forall|x: u64|
                #[trigger] final(self).spec_contains(x) <==> old(self).spec_contains(x) || x
                    == val,
            old(self).spec_contains(val) ==> final(self)@ == old(self)@,
            !old(self).spec_contains(val) ==> final(self)@.len() == old(self)@.len() + 1,
    {
        let ghost pre = self@;
        let mut i: usize = 0;
        // Find the insertion point: the first index holding a value >= val.
        while i < self.sorted_vals.len() && self.sorted_vals[i] < val
            invariant
                i <= self@.len(),
                self@ == pre,
                old(self).wf(),
                forall|j: int| 0 <= j < i ==> self@[j] < val,
            decreases self@.len() - i,
        {
            i = i + 1;
        }
        if i < self.sorted_vals.len() {
            let found = self.sorted_vals[i];
            if found == val {
                proof {
                    assert(self.spec_contains(val));
                    assert(forall|x: u64|
                        #[trigger] self.spec_contains(x) <==> old(self).spec_contains(x) || x
                            == val);
                }
                return ;
            }
        }
        self.sorted_vals.insert(i, val);
        proof {
            let post = self@;
            assert(post == pre.insert(i as int, val));
            assert(post[i as int] == val);
            assert(self.spec_contains(val));
            assert(final(self).wf()) by {
                assert forall|a: int, b: int| 0 <= a < b < post.len() implies post[a] < post[b] by {
                    if a < i && b > i {
                        assert(post[a] == pre[a] && post[b] == pre[b - 1]);
                        if i < pre.len() {
                            assert(pre[a] < val);
                        }
                        assert(pre[a] < pre[b - 1]) by {
                            assert(a < b - 1 || a == b - 1);
                        }
                    } else if b == i {
                        assert(post[a] == pre[a] && pre[a] < val);
                    } else if a == i {
                        assert(post[b] == pre[b - 1]);
                        // pre[b-1] >= the element at the insertion point > val
                        assert(pre[i as int] != val && !(pre[i as int] < val));
                        if b - 1 > i {
                            assert(pre[i as int] < pre[b - 1]);
                        }
                        assert(val < pre[b - 1]);
                    }
                }
            }
            assert forall|x: u64|
                #[trigger] self.spec_contains(x) <==> old(self).spec_contains(x) || x == val by {
                if self.spec_contains(x) {
                    let k = choose|k: int| 0 <= k < post.len() && post[k] == x;
                    if k < i {
                        assert(pre[k] == x);
                    } else if k > i {
                        assert(pre[k - 1] == x);
                    }
                }
                if old(self).spec_contains(x) {
                    let k = choose|k: int| 0 <= k < pre.len() && pre[k] == x;
                    if k < i {
                        assert(post[k] == x);
                    } else {
                        assert(post[k + 1] == x);
                    }
                }
            }
        }
    }

    /// Remove and return the largest value, or `None` if the heap is empty.
    pub fn pop(&mut self) -> (r: Option<u64>)
        requires
            old(self).wf(),
        ensures
            final(self).wf(),
            match r {
                None => old(self)@.len() == 0 && final(self)@ == old(self)@,
                Some(m) => {
                    &&& old(self).spec_contains(m)
                    &&& forall|x: u64| #[trigger] old(self).spec_contains(x) ==> x <= m
                    &&& forall|x: u64|
                        #[trigger] final(self).spec_contains(x) <==> old(self).spec_contains(x)
                            && x != m
                },
            },
    {
        let ghost pre = self@;
        match self.sorted_vals.pop() {
            None => None,
            Some(m) => {
                proof {
                    assert(pre[pre.len() - 1] == m);
                    assert(self@ == pre.drop_last());
                    assert forall|x: u64| #[trigger] pre.contains(x) implies x <= m by {
                        let k = choose|k: int| 0 <= k < pre.len() && pre[k] == x;
                        if k < pre.len() - 1 {
                            assert(pre[k] < pre[pre.len() - 1]);
                        }
                    }
                    assert forall|x: u64|
                        #[trigger] self.spec_contains(x) <==> (pre.contains(x) && x != m) by {
                        if self.spec_contains(x) {
                            let k = choose|k: int| 0 <= k < self@.len() && self@[k] == x;
                            assert(pre[k] == x);
                            assert(pre[k] < pre[pre.len() - 1]);
                        }
                        if pre.contains(x) && x != m {
                            let k = choose|k: int| 0 <= k < pre.len() && pre[k] == x;
                            assert(k != pre.len() - 1);
                            assert(self@[k] == x);
                        }
                    }
                }
                Some(m)
            },
        }
    }
}

} // verus!
