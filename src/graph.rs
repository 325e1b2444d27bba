//! Segments, oriented steps and paths with cumulative base offsets.
use vstd::prelude::*;
use std::collections::HashMap;

verus! {

broadcast use vstd::std_specs::hash::group_hash_axioms;

/// The direction in which a path traverses a segment.
#[derive(Clone, Copy, Debug, PartialEq, Eq, Structural)]
pub enum Orientation {
    Forward,
    Backward,
}

/// One oriented visit of a segment within a path.
#[derive(Clone, Copy, Debug, PartialEq, Eq, Structural)]
pub struct Step {
    pub id: u64,
    pub orient: Orientation,
}

/// A step together with the number of bases that precede it in its path.
#[derive(Clone, Copy, Debug, PartialEq, Eq, Structural)]
pub struct OffsetStep {
    pub id: u64,
    pub orient: Orientation,
    pub offset: u64,
}

/// A step refers to a segment id that the index does not hold.
#[derive(Clone, Copy, Debug, PartialEq, Eq, Structural)]
pub struct MissingSegment {
    pub id: u64,
}

/// Map from segment id to the segment's sequence.
pub struct SegmentIndex {
    pub seqs: HashMap<u64, Vec<u8>>,
}

/// The sequences of an index, as a map of byte sequences.
pub open spec fn index_view(idx: Map<u64, Vec<u8>>) -> Map<u64, Seq<u8>> {
    Map::new(|k: u64| idx.contains_key(k), |k: u64| idx[k]@)
}

impl SegmentIndex {
    pub open spec fn view(&self) -> Map<u64, Seq<u8>> {
        index_view(self.seqs@)
    }

    /// Sequence of segment `id`, if the index holds it.
    pub fn get(&self, id: u64) -> (r: Option<&Vec<u8>>)
        ensures
            match r {
                Some(s) => self@.contains_key(id) && s@ == self@[id],
                None => !self@.contains_key(id),
            },
    {
        self.seqs.get(&id)
    }
}

/// Segment ids in a list of segments are pairwise distinct.
pub open spec fn unique_ids(segs: Seq<(u64, Vec<u8>)>) -> bool {
    forall|i: int, j: int| 0 <= i < j < segs.len() ==> segs[i].0 != segs[j].0
}

/// Builds the index from `(id, sequence)` pairs. Where an id occurs more
/// than once, the index holds the sequence of its first occurrence.
pub fn build_segment_index(segs: Vec<(u64, Vec<u8>)>) -> (r: SegmentIndex)
    ensures
        forall|id: u64| r@.contains_key(id) <==> exists|i: int| 0 <= i < segs@.len() && segs@[i].0 == id,
        forall|i: int|
            0 <= i < segs@.len() && (forall|k: int| 0 <= k < i ==> segs@[k].0 != segs@[i].0) ==> #[trigger] r@[segs@[i].0]
                == segs@[i].1@,
        unique_ids(segs@) ==> forall|i: int| 0 <= i < segs@.len() ==> #[trigger] r@[segs@[i].0] == segs@[i].1@,
{
    let mut seqs: HashMap<u64, Vec<u8>> = HashMap::new();
    let mut rest = segs;
    let ghost orig = rest@;
    let mut n: usize = rest.len();
    while n > 0
        invariant
            n == rest@.len(),
            n <= orig.len(),
            rest@ == orig.subrange(0, n as int),
            forall|id: u64| seqs@.contains_key(id) <==> exists|i: int| n <= i < orig.len() && orig[i].0 == id,
            forall|i: int|
                n <= i < orig.len() && (forall|k: int| n <= k < i ==> orig[k].0 != orig[i].0) ==> #[trigger] seqs@[orig[i].0]@
                    == orig[i].1@,
        decreases n,
    {
        let (id, s) = rest.pop().unwrap();
        n = n - 1;
        assert(orig[n as int] == (id, s));
        seqs.insert(id, s);
        assert forall|id2: u64| seqs@.contains_key(id2) <==> exists|i: int| n <= i < orig.len() && orig[i].0 == id2 by {
            if seqs@.contains_key(id2) && id2 != id {
                let i = choose|i: int| n + 1 <= i < orig.len() && orig[i].0 == id2;
                assert(n <= i < orig.len());
            }
            if exists|i: int| n <= i < orig.len() && orig[i].0 == id2 {
                let i = choose|i: int| n <= i < orig.len() && orig[i].0 == id2;
                if i != n {
                    assert(n + 1 <= i < orig.len());
                }
            }
        }
        assert forall|i: int|
            n <= i < orig.len() && (forall|k: int| n <= k < i ==> orig[k].0 != orig[i].0) implies #[trigger] seqs@[orig[i].0]@
                == orig[i].1@ by {
            if i > n {
                assert(orig[n as int].0 != orig[i].0);
                assert(forall|k: int| n + 1 <= k < i ==> orig[k].0 != orig[i].0);
            }
        }
    }
    let r = SegmentIndex { seqs };
    assert(segs@ == orig);
    assert forall|i: int|
        0 <= i < segs@.len() && (forall|k: int| 0 <= k < i ==> segs@[k].0 != segs@[i].0) implies #[trigger] r@[segs@[i].0]
            == segs@[i].1@ by {
        assert(r.seqs@.contains_key(orig[i].0));
    }
    assert forall|id: u64| r@.contains_key(id) <==> exists|i: int| 0 <= i < segs@.len() && segs@[i].0 == id by {}
    r
}

/// Length of a segment's sequence in the index, zero for an id it lacks.
pub open spec fn seg_len(idx: Map<u64, Seq<u8>>, id: u64) -> nat {
    if idx.contains_key(id) { idx[id].len() } else { 0 }
}

/// Number of bases of the first `n` steps.
pub open spec fn prefix_len(idx: Map<u64, Seq<u8>>, steps: Seq<Step>, n: int) -> nat
    decreases n,
{
    if n <= 0 { 0 } else { prefix_len(idx, steps, n - 1) + seg_len(idx, steps[n - 1].id) }
}

/// Every step of the path names a segment of the index.
pub open spec fn all_present(idx: Map<u64, Seq<u8>>, steps: Seq<Step>) -> bool {
    forall|i: int| 0 <= i < steps.len() ==> idx.contains_key(#[trigger] steps[i].id)
}

/// The steps of a path with the offset of each.
pub open spec fn with_offsets(idx: Map<u64, Seq<u8>>, steps: Seq<Step>) -> Seq<OffsetStep> {
    Seq::new(steps.len(), |i: int| OffsetStep {
        id: steps[i].id,
        orient: steps[i].orient,
        offset: prefix_len(idx, steps, i) as u64,
    })
}

proof fn lemma_prefix_mono(idx: Map<u64, Seq<u8>>, steps: Seq<Step>, a: int, b: int)
    requires
        a <= b,
    ensures
        prefix_len(idx, steps, a) <= prefix_len(idx, steps, b),
    decreases b - a,
{
    if a < b {
        lemma_prefix_mono(idx, steps, a, b - 1);
    }
}

/// Number of bases of a path whose segments are all in the index, or
/// `None` where that number does not fit in a `u64`.
pub fn path_length(idx: &SegmentIndex, steps: &Vec<Step>) -> (r: Option<u64>)
    ensures
        match r {
            Some(v) => v == prefix_len(idx@, steps@, steps@.len() as int),
            None => prefix_len(idx@, steps@, steps@.len() as int) > u64::MAX,
        },
{
    let mut total: u64 = 0;
    let mut i: usize = 0;
    while i < steps.len()
        invariant
            i <= steps@.len(),
            total == prefix_len(idx@, steps@, i as int),
        decreases steps@.len() - i,
    {
        let len: usize = match idx.get(steps[i].id) {
            Some(s) => s.len(),
            None => 0,
        };
        if len as u64 > u64::MAX - total {
            proof {
                lemma_prefix_mono(idx@, steps@, i + 1, steps@.len() as int);
            }
            return None;
        }
        total = total + len as u64;
        i = i + 1;
    }
    Some(total)
}

/// Turns a path's steps into steps with offsets; fails on the first step
/// whose segment the index lacks.
pub fn path_offsets(idx: &SegmentIndex, steps: &Vec<Step>) -> (r: Result<Vec<OffsetStep>, MissingSegment>)
    requires
        prefix_len(idx@, steps@, steps@.len() as int) <= u64::MAX,
    ensures
        match r {
            Ok(v) => all_present(idx@, steps@) && v@ == with_offsets(idx@, steps@),
            Err(e) => !idx@.contains_key(e.id) && exists|i: int| 0 <= i < steps@.len() && steps@[i].id == e.id,
        },
        r is Err <==> !all_present(idx@, steps@),
{
    let mut out: Vec<OffsetStep> = Vec::new();
    let mut total: u64 = 0;
    let mut i: usize = 0;
    while i < steps.len()
        invariant
            i <= steps@.len(),
            total == prefix_len(idx@, steps@, i as int),
            prefix_len(idx@, steps@, steps@.len() as int) <= u64::MAX,
            forall|j: int| 0 <= j < i ==> idx@.contains_key(#[trigger] steps@[j].id),
            out@ == with_offsets(idx@, steps@).subrange(0, i as int),
        decreases steps@.len() - i,
    {
        let st = steps[i];
        match idx.get(st.id) {
            None => {
                return Err(MissingSegment { id: st.id });
            },
            Some(s) => {
                proof {
                    lemma_prefix_mono(idx@, steps@, i + 1, steps@.len() as int);
                }
                out.push(OffsetStep { id: st.id, orient: st.orient, offset: total });
                total = total + s.len() as u64;
                i = i + 1;
                assert(out@ =~= with_offsets(idx@, steps@).subrange(0, i as int));
            },
        }
    }
    assert(out@ =~= with_offsets(idx@, steps@));
    Ok(out)
}

} // verus!
