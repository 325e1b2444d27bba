//! Extraction over all ultrabubbles and the collection of its results.
use vstd::prelude::*;
use crate::graph::{MissingSegment, SegmentIndex};
use crate::assign::OffsetPath;
use crate::variants::{VariantRecord, bubble_missing, bubble_variant, record_ok};

verus! {

/// A run that cannot start: the graph has fewer than two paths.
#[derive(Clone, Copy, Debug, PartialEq, Eq, Structural)]
pub enum ConfigurationError {
    TooFewPaths,
}

/// Variant comparison needs at least two paths.
pub fn check_path_count(n: usize) -> (r: Result<(), ConfigurationError>)
    ensures
        r is Ok <==> n >= 2,
{
    if n < 2 {
        Err(ConfigurationError::TooFewPaths)
    } else {
        Ok(())
    }
}

/// The outcome of extraction on one bubble.
pub type BubbleResult = Result<Option<VariantRecord>, MissingSegment>;

pub open spec fn bubble_result_ok(
    idx: Map<u64, Seq<u8>>,
    paths: Seq<OffsetPath>,
    refs: Seq<Vec<u8>>,
    ignore_inverted: bool,
    b: (u64, u64),
    res: BubbleResult,
) -> bool {
    match res {
        Ok(o) => !bubble_missing(idx, paths, b.0, b.1) && record_ok(idx, paths, refs, ignore_inverted, b.0, b.1, o),
        Err(e) => !idx.contains_key(e.id) && bubble_missing(idx, paths, b.0, b.1),
    }
}

/// Runs extraction on each bubble on its own; a bubble that cannot be read
/// gives its error and does not stop the others.
pub fn extract_all(
    idx: &SegmentIndex,
    paths: &Vec<OffsetPath>,
    refs: &Vec<Vec<u8>>,
    ignore_inverted: bool,
    bubbles: &Vec<(u64, u64)>,
) -> (r: Vec<BubbleResult>)
    ensures
        r@.len() == bubbles@.len(),
        forall|i: int| 0 <= i < bubbles@.len() ==> bubble_result_ok(idx@, paths@, refs@, ignore_inverted, bubbles@[i], #[trigger] r@[i]),
{
    let mut out: Vec<BubbleResult> = Vec::new();
    let mut i: usize = 0;
    while i < bubbles.len()
        invariant
            i <= bubbles@.len(),
            out@.len() == i,
            forall|k: int| 0 <= k < i ==> bubble_result_ok(idx@, paths@, refs@, ignore_inverted, bubbles@[k], #[trigger] out@[k]),
        decreases bubbles@.len() - i,
    {
        let (entry, exit) = bubbles[i];
        out.push(bubble_variant(idx, paths, refs, ignore_inverted, entry, exit));
        i = i + 1;
    }
    out
}

/// The records among results `n..`, in order.
pub open spec fn records_from(results: Seq<BubbleResult>, n: int) -> Seq<VariantRecord>
    decreases results.len() - n,
{
    if n < 0 || n >= results.len() {
        seq![]
    } else {
        let rest = records_from(results, n + 1);
        match results[n] {
            Ok(Some(rec)) => seq![rec] + rest,
            _ => rest,
        }
    }
}

/// The bubbles among `n..` whose extraction failed, in order.
pub open spec fn skipped_from(results: Seq<BubbleResult>, bubbles: Seq<(u64, u64)>, n: int) -> Seq<(u64, u64)>
    decreases results.len() - n,
{
    if n < 0 || n >= results.len() {
        seq![]
    } else {
        let rest = skipped_from(results, bubbles, n + 1);
        match results[n] {
            Err(_) => seq![bubbles[n]] + rest,
            _ => rest,
        }
    }
}

/// Collects the records of all bubbles and the list of bubbles skipped
/// because a segment was missing.
pub fn collect_results(results: Vec<BubbleResult>, bubbles: &Vec<(u64, u64)>) -> (r: (Vec<VariantRecord>, Vec<(u64, u64)>))
    requires
        results@.len() == bubbles@.len(),
    ensures
        r.0@ == records_from(results@, 0),
        r.1@ == skipped_from(results@, bubbles@, 0),
{
    let ghost all = results@;
    let mut rest = results;
    let mut recs: Vec<VariantRecord> = Vec::new();
    let mut skipped: Vec<(u64, u64)> = Vec::new();
    while rest.len() > 0
        invariant
            rest@.len() <= all.len(),
            all.len() == bubbles@.len(),
            rest@ == all.subrange(0, rest@.len() as int),
            recs@ == records_from(all, rest@.len() as int),
            skipped@ == skipped_from(all, bubbles@, rest@.len() as int),
        decreases rest@.len(),
    {
        let res = rest.pop().unwrap();
        let n = rest.len();
        assert(all[n as int] == res);
        match res {
            Ok(Some(rec)) => {
                recs.insert(0, rec);
            },
            Ok(None) => {},
            Err(_) => {
                skipped.insert(0, bubbles[n]);
            },
        }
        assert(recs@ =~= records_from(all, n as int));
        assert(skipped@ =~= skipped_from(all, bubbles@, n as int));
    }
    (recs, skipped)
}

} // verus!

verus! {

proof fn lemma_records_shift(results: Seq<BubbleResult>, p: int, m: int)
    requires
        0 <= p <= m,
        p < results.len(),
    ensures
        records_from(results.remove(p), m) == records_from(results, m + 1),
    decreases results.len() - m,
{
    if m + 1 < results.len() {
        lemma_records_shift(results, p, m + 1);
        assert(results.remove(p)[m] == results[m + 1]);
    }
}

proof fn lemma_records_drop_failed(results: Seq<BubbleResult>, p: int, n: int)
    requires
        0 <= n <= p < results.len(),
        results[p] is Err,
    ensures
        records_from(results.remove(p), n) == records_from(results, n),
    decreases p - n,
{
    if n == p {
        lemma_records_shift(results, p, p);
    } else {
        lemma_records_drop_failed(results, p, n + 1);
        assert(results.remove(p)[n] == results[n]);
    }
}

/// A bubble whose extraction failed contributes no record: collecting the
/// results without it gives the same records, in the same order.
pub proof fn law_failed_bubble_leaves_records(results: Seq<BubbleResult>, p: int)
    requires
        0 <= p < results.len(),
        results[p] is Err,
    ensures
        records_from(results.remove(p), 0) == records_from(results, 0),
{
    lemma_records_drop_failed(results, p, 0);
}

} // verus!
