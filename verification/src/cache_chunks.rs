use vstd::prelude::*;
use crate::path::copy_range;

verus! {

/// A source of pointers for cache chunks, each unique within this process.
/// Candidates come from the process random number generator; this type only
/// guarantees that no pointer is handed out twice.
pub struct PointersIter {
    seen: Vec<i64>,
}

/// Relies on rand::random: draws one value of the standard distribution;
/// nothing can be promised of a random value, so this has no `ensures`.
pub assume_specification<T>[ rand::random::<T> ]() -> (r: T)
    where
        rand::distributions::Standard: rand::distributions::Distribution<T>,
;

impl PointersIter {
    pub closed spec fn view(&self) -> Seq<i64> {
        self.seen@
    }

    /// A source that has handed out nothing yet.
    pub fn new() -> (r: PointersIter)
        ensures
            r@ == Seq::<i64>::empty(),
    {
        let r = PointersIter { seen: Vec::new() };
        proof {
            assert(r@ =~= Seq::<i64>::empty());
        }
        r
    }

    /// Draw one candidate pointer. `Some` carries a pointer never handed out
    /// before, now recorded; `None` means the draw collided and the caller
    /// should try again.
    pub fn next_pointer(&mut self) -> (r: Option<i64>)
        ensures
            match r {
                Some(p) => !old(self)@.contains(p) && final(self)@ == old(self)@.push(p),
                None => final(self)@ == old(self)@,
            },
    {
        let candidate = rand::random::<i64>();
        let mut i: usize = 0;
        while i < self.seen.len()
            invariant
                i <= self@.len(),
                self == old(self),
                forall|j: int| 0 <= j < i ==> self@[j] != candidate,
            decreases self@.len() - i,
        {
            if self.seen[i] == candidate {
                return None;
            }
            i = i + 1;
        }
        proof {
            if self@.contains(candidate) {
                let k = choose|k: int| 0 <= k < self@.len() && self@[k] == candidate;
            }
        }
        self.seen.push(candidate);
        Some(candidate)
    }
}

/// All the chunks of `chunks` laid end to end.
pub open spec fn concat_of(chunks: Seq<Seq<u8>>) -> Seq<u8>
    decreases chunks.len(),
{
    if chunks.len() == 0 {
        Seq::empty()
    } else {
        concat_of(chunks.drop_last()) + chunks.last()
    }
}

pub open spec fn chunks_view(chunks: Seq<Vec<u8>>) -> Seq<Seq<u8>> {
    chunks.map_values(|c: Vec<u8>| c@)
}

/// Split bytes into chunks of at most `max` bytes: every chunk but the last
/// is full, none is empty, and together they give the input back. This is how
/// a value too large for one cache slot is spread over several.
pub fn chunk_bytes(data: &Vec<u8>, max: usize) -> (r: Vec<Vec<u8>>)
    requires
        max > 0,
    ensures
        concat_of(chunks_view(r@)) == data@,
        forall|i: int| 0 <= i < r@.len() ==> (#[trigger] r@[i])@.len() <= max,
        forall|i: int| 0 <= i < r@.len() - 1 ==> (#[trigger] r@[i])@.len() == max,
        forall|i: int| 0 <= i < r@.len() ==> (#[trigger] r@[i])@.len() > 0,
{
    let mut out: Vec<Vec<u8>> = Vec::new();
    let n = data.len();
    let mut pos: usize = 0;
    while pos < n
        invariant
            pos <= n,
            n == data@.len(),
            max > 0,
            concat_of(chunks_view(out@)) == data@.take(pos as int),
            forall|i: int| 0 <= i < out@.len() ==> (#[trigger] out@[i])@.len() <= max,
            forall|i: int| 0 <= i < out@.len() - 1 ==> (#[trigger] out@[i])@.len() == max,
            out@.len() > 0 && pos < n ==> out@[out@.len() - 1]@.len() == max,
            forall|i: int| 0 <= i < out@.len() ==> (#[trigger] out@[i])@.len() > 0,
        decreases n - pos,
    {
        let end = if n - pos < max {
            n
        } else {
            pos + max
        };
        let chunk = copy_range(data, pos, end);
        let ghost pre = chunks_view(out@);
        out.push(chunk);
        proof {
            assert(chunks_view(out@).drop_last() =~= pre);
            assert(concat_of(chunks_view(out@)) =~= data@.take(end as int));
        }
        pos = end;
    }
    proof {
        assert(data@.take(n as int) =~= data@);
    }
    out
}

/// Reassemble fetched chunks into the original bytes.
pub fn concat_chunks(chunks: &Vec<Vec<u8>>) -> (r: Vec<u8>)
    ensures
        r@ == concat_of(chunks_view(chunks@)),
{
    let mut out: Vec<u8> = Vec::new();
    let mut i: usize = 0;
    while i < chunks.len()
        invariant
            i <= chunks@.len(),
            out@ == concat_of(chunks_view(chunks@).take(i as int)),
        decreases chunks@.len() - i,
    {
        let c = &chunks[i];
        let mut j: usize = 0;
        while j < c.len()
            invariant
                j <= c@.len(),
                i < chunks@.len(),
                c == &chunks@[i as int],
                out@ == concat_of(chunks_view(chunks@).take(i as int)) + c@.take(j as int),
            decreases c@.len() - j,
        {
            out.push(c[j]);
            proof {
                assert(concat_of(chunks_view(chunks@).take(i as int)) + c@.take(j + 1 as int)
                    =~= out@);
            }
            j = j + 1;
        }
        proof {
            let cv = chunks_view(chunks@);
            assert(cv.take(i + 1 as int).drop_last() =~= cv.take(i as int));
            assert(cv.take(i + 1 as int).last() == c@);
            assert(c@.take(c@.len() as int) =~= c@);
            assert(out@ =~= concat_of(cv.take(i + 1 as int)));
        }
        i = i + 1;
    }
    proof {
        assert(chunks_view(chunks@).take(chunks@.len() as int) =~= chunks_view(chunks@));
    }
    out
}

} // verus!
