//! Comparing the paths that cross an ultrabubble and deriving its alleles.
use vstd::prelude::*;
use crate::graph::{MissingSegment, OffsetStep, Orientation, SegmentIndex};
use crate::assign::{OffsetPath, copy_bytes};

verus! {

/// The complement of a base: `A`/`T` and `C`/`G` swap, in either case;
/// any other byte (such as `N`) is its own complement.
pub open spec fn complement(c: u8) -> u8 {
    if c == 65 {
        84u8
    } else if c == 84 {
        65u8
    } else if c == 67 {
        71u8
    } else if c == 71 {
        67u8
    } else if c == 97 {
        116u8
    } else if c == 116 {
        97u8
    } else if c == 99 {
        103u8
    } else if c == 103 {
        99u8
    } else {
        c
    }
}

/// The reverse complement of a sequence.
pub open spec fn revcomp(s: Seq<u8>) -> Seq<u8> {
    Seq::new(s.len(), |i: int| complement(s[s.len() - 1 - i]))
}

/// A segment's sequence as read in the given orientation.
pub open spec fn oriented(s: Seq<u8>, o: Orientation) -> Seq<u8> {
    match o {
        Orientation::Forward => s,
        Orientation::Backward => revcomp(s),
    }
}

/// Index of the first step at or after `from` on segment `id`, or the
/// number of steps if there is none.
pub open spec fn first_at(steps: Seq<OffsetStep>, id: u64, from: int) -> int
    decreases steps.len() - from,
{
    if from >= steps.len() {
        steps.len() as int
    } else if steps[from].id == id {
        from
    } else {
        first_at(steps, id, from + 1)
    }
}

/// Where a path first visits the entry and the exit, when it visits both
/// at distinct steps.
pub open spec fn trav(steps: Seq<OffsetStep>, entry: u64, exit: u64) -> Option<(int, int)> {
    let a = first_at(steps, entry, 0);
    let b = first_at(steps, exit, 0);
    if a < steps.len() && b < steps.len() && a != b {
        Some((a, b))
    } else {
        None
    }
}

/// The steps strictly between the two boundary steps.
pub open spec fn span_of(t: (int, int)) -> (int, int) {
    if t.0 < t.1 {
        (t.0 + 1, t.1)
    } else {
        (t.1 + 1, t.0)
    }
}

/// Every step in `lo..hi` names a segment of the index.
pub open spec fn span_present(idx: Map<u64, Seq<u8>>, steps: Seq<OffsetStep>, lo: int, hi: int) -> bool {
    forall|k: int| lo <= k < hi ==> idx.contains_key(#[trigger] steps[k].id)
}

/// The oriented sequences of the steps `lo..hi`, concatenated.
pub open spec fn span_seq(idx: Map<u64, Seq<u8>>, steps: Seq<OffsetStep>, lo: int, hi: int) -> Seq<u8>
    decreases hi - lo,
{
    if hi <= lo {
        seq![]
    } else {
        span_seq(idx, steps, lo, hi - 1) + oriented(idx[steps[hi - 1].id], steps[hi - 1].orient)
    }
}

/// The sequence a path spells between entry and exit, read from entry to
/// exit: reverse complemented where the path meets the exit first.
pub open spec fn allele(idx: Map<u64, Seq<u8>>, steps: Seq<OffsetStep>, t: (int, int)) -> Seq<u8> {
    let s = span_seq(idx, steps, span_of(t).0, span_of(t).1);
    if t.0 < t.1 {
        s
    } else {
        revcomp(s)
    }
}

/// The bubble cannot be read: its entry or exit is not in the index, or a
/// path crossing it has a step between them that is not.
pub open spec fn bubble_missing(idx: Map<u64, Seq<u8>>, paths: Seq<OffsetPath>, entry: u64, exit: u64) -> bool {
    !idx.contains_key(entry) || !idx.contains_key(exit) || exists|j: int|
        0 <= j < paths.len() && (#[trigger] trav(paths[j].steps@, entry, exit)) is Some
            && !span_present(
            idx,
            paths[j].steps@,
            span_of(trav(paths[j].steps@, entry, exit).unwrap()).0,
            span_of(trav(paths[j].steps@, entry, exit).unwrap()).1,
        )
}

pub open spec fn in_refs(refs: Seq<Vec<u8>>, name: Seq<u8>) -> bool {
    exists|k: int| 0 <= k < refs.len() && refs[k]@ == name
}

/// A path may give the reference allele: it crosses the bubble and, where
/// reference names are given, it is one of them.
pub open spec fn ref_eligible(p: OffsetPath, refs: Seq<Vec<u8>>, entry: u64, exit: u64) -> bool {
    trav(p.steps@, entry, exit) is Some && (refs.len() == 0 || in_refs(refs, p.name@))
}

/// Index of the first eligible reference path at or after `from`, or the
/// number of paths if there is none.
pub open spec fn ref_from(paths: Seq<OffsetPath>, refs: Seq<Vec<u8>>, entry: u64, exit: u64, from: int) -> int
    decreases paths.len() - from,
{
    if from >= paths.len() {
        paths.len() as int
    } else if ref_eligible(paths[from], refs, entry, exit) {
        from
    } else {
        ref_from(paths, refs, entry, exit, from + 1)
    }
}

/// Path `j` is compared with reference path `r`: it crosses the bubble and,
/// when inverted paths are ignored, it does so in the same direction as `r`,
/// with the same orientations at its entry step and at its exit step.
pub open spec fn takes_part(paths: Seq<OffsetPath>, ignore_inverted: bool, entry: u64, exit: u64, r: int, j: int) -> bool {
    let t = trav(paths[j].steps@, entry, exit);
    let tr = trav(paths[r].steps@, entry, exit);
    t is Some && (!ignore_inverted || ((t.unwrap().0 < t.unwrap().1) == (tr.unwrap().0 < tr.unwrap().1)
        && paths[j].steps@[t.unwrap().0].orient == paths[r].steps@[tr.unwrap().0].orient
        && paths[j].steps@[t.unwrap().1].orient == paths[r].steps@[tr.unwrap().1].orient))
}

pub open spec fn allele_of(idx: Map<u64, Seq<u8>>, paths: Seq<OffsetPath>, entry: u64, exit: u64, j: int) -> Seq<u8> {
    allele(idx, paths[j].steps@, trav(paths[j].steps@, entry, exit).unwrap())
}

/// One variant site: the reference path and the offset of the entry on it,
/// the reference allele, the distinct alternate alleles, and for each path
/// of the graph the allele it carries (0 the reference, `k` the `k`-th
/// alternate) or `None` where it is not compared.
pub struct VariantRecord {
    pub path: Vec<u8>,
    pub pos: u64,
    pub reference: Vec<u8>,
    pub alts: Vec<Vec<u8>>,
    pub genotypes: Vec<Option<usize>>,
}

fn complement_byte(c: u8) -> (r: u8)
    ensures
        r == complement(c),
{
    if c == 65 {
        84
    } else if c == 84 {
        65
    } else if c == 67 {
        71
    } else if c == 71 {
        67
    } else if c == 97 {
        116
    } else if c == 116 {
        97
    } else if c == 99 {
        103
    } else if c == 103 {
        99
    } else {
        c
    }
}

/// The reverse complement of a sequence.
pub fn reverse_complement(s: &Vec<u8>) -> (r: Vec<u8>)
    ensures
        r@ == revcomp(s@),
{
    let mut r: Vec<u8> = Vec::new();
    let mut i: usize = s.len();
    while i > 0
        invariant
            i <= s@.len(),
            r@ == revcomp(s@).subrange(0, s@.len() - i),
        decreases i,
    {
        i = i - 1;
        r.push(complement_byte(s[i]));
        assert(r@ =~= revcomp(s@).subrange(0, s@.len() - i));
    }
    assert(r@ =~= revcomp(s@));
    r
}

pub(crate) fn append_bytes(out: &mut Vec<u8>, s: &Vec<u8>)
    ensures
        final(out)@ == old(out)@ + s@,
{
    let ghost start = out@;
    let mut i: usize = 0;
    while i < s.len()
        invariant
            i <= s@.len(),
            out@ == start + s@.subrange(0, i as int),
        decreases s@.len() - i,
    {
        out.push(s[i]);
        i = i + 1;
        assert(out@ =~= start + s@.subrange(0, i as int));
    }
    assert(s@.subrange(0, s@.len() as int) =~= s@);
}

/// Byte-wise equality of two byte strings.
pub fn bytes_eq(a: &Vec<u8>, b: &Vec<u8>) -> (r: bool)
    ensures
        r == (a@ == b@),
{
    if a.len() != b.len() {
        return false;
    }
    let mut i: usize = 0;
    while i < a.len()
        invariant
            a@.len() == b@.len(),
            i <= a@.len(),
            forall|k: int| 0 <= k < i ==> a@[k] == b@[k],
        decreases a@.len() - i,
    {
        if a[i] != b[i] {
            return false;
        }
        i = i + 1;
    }
    assert(a@ =~= b@);
    true
}

fn find_step(steps: &Vec<OffsetStep>, id: u64) -> (r: usize)
    ensures
        r == first_at(steps@, id, 0),
{
    let mut i: usize = 0;
    while i < steps.len() && steps[i].id != id
        invariant
            i <= steps@.len(),
            first_at(steps@, id, i as int) == first_at(steps@, id, 0),
        decreases steps@.len() - i,
    {
        i = i + 1;
    }
    i
}

proof fn lemma_first_at_bound(steps: Seq<OffsetStep>, id: u64, from: int)
    requires
        0 <= from <= steps.len(),
    ensures
        from <= first_at(steps, id, from) <= steps.len(),
    decreases steps.len() - from,
{
    if from < steps.len() && steps[from].id != id {
        lemma_first_at_bound(steps, id, from + 1);
    }
}

fn path_trav(steps: &Vec<OffsetStep>, entry: u64, exit: u64) -> (r: Option<(usize, usize)>)
    ensures
        r is Some <==> trav(steps@, entry, exit) is Some,
        r is Some ==> (r.unwrap().0 as int, r.unwrap().1 as int) == trav(steps@, entry, exit).unwrap()
            && r.unwrap().0 < steps@.len() && r.unwrap().1 < steps@.len(),
{
    let a = find_step(steps, entry);
    let b = find_step(steps, exit);
    if a < steps.len() && b < steps.len() && a != b {
        Some((a, b))
    } else {
        None
    }
}

/// The allele a path spells across a bubble, given its boundary steps.
fn path_allele(idx: &SegmentIndex, steps: &Vec<OffsetStep>, a: usize, b: usize) -> (r: Result<Vec<u8>, MissingSegment>)
    requires
        a < steps@.len(),
        b < steps@.len(),
        a != b,
    ensures
        match r {
            Ok(v) => span_present(idx@, steps@, span_of((a as int, b as int)).0, span_of((a as int, b as int)).1)
                && v@ == allele(idx@, steps@, (a as int, b as int)),
            Err(e) => !idx@.contains_key(e.id),
        },
        r is Err <==> !span_present(idx@, steps@, span_of((a as int, b as int)).0, span_of((a as int, b as int)).1),
{
    let lo: usize = if a < b { a + 1 } else { b + 1 };
    let hi: usize = if a < b { b } else { a };
    let mut out: Vec<u8> = Vec::new();
    let mut k = lo;
    while k < hi
        invariant
            lo <= k <= hi,
            hi < steps@.len(),
            (lo as int, hi as int) == span_of((a as int, b as int)),
            span_present(idx@, steps@, lo as int, k as int),
            out@ == span_seq(idx@, steps@, lo as int, k as int),
        decreases hi - k,
    {
        let st = steps[k];
        match idx.get(st.id) {
            None => {
                assert(!idx@.contains_key(steps@[k as int].id));
                assert(span_of((a as int, b as int)) == (lo as int, hi as int));
                assert(!span_present(idx@, steps@, lo as int, hi as int));
                return Err(MissingSegment { id: st.id });
            },
            Some(s) => {
                match st.orient {
                    Orientation::Forward => append_bytes(&mut out, s),
                    Orientation::Backward => {
                        let rc = reverse_complement(s);
                        append_bytes(&mut out, &rc);
                    },
                }
            },
        }
        k = k + 1;
    }
    if a < b {
        Ok(out)
    } else {
        Ok(reverse_complement(&out))
    }
}

} // verus!

verus! {

/// Some compared path carries an allele other than that of reference path `r`.
pub open spec fn differs(
    idx: Map<u64, Seq<u8>>,
    paths: Seq<OffsetPath>,
    ignore_inverted: bool,
    entry: u64,
    exit: u64,
    r: int,
) -> bool {
    exists|j: int|
        0 <= j < paths.len() && #[trigger] takes_part(paths, ignore_inverted, entry, exit, r, j)
            && allele_of(idx, paths, entry, exit, j) != allele_of(idx, paths, entry, exit, r)
}

/// Some path compared with reference path `r` carries allele `s`.
pub open spec fn carried(
    idx: Map<u64, Seq<u8>>,
    paths: Seq<OffsetPath>,
    ignore_inverted: bool,
    entry: u64,
    exit: u64,
    r: int,
    s: Seq<u8>,
) -> bool {
    exists|j: int|
        0 <= j < paths.len() && #[trigger] takes_part(paths, ignore_inverted, entry, exit, r, j)
            && allele_of(idx, paths, entry, exit, j) == s
}

/// Some path before path `j` that is compared with `r` carries allele `s`.
pub open spec fn carried_before(
    idx: Map<u64, Seq<u8>>,
    paths: Seq<OffsetPath>,
    ignore_inverted: bool,
    entry: u64,
    exit: u64,
    r: int,
    s: Seq<u8>,
    j: int,
) -> bool {
    exists|i: int|
        0 <= i < j && #[trigger] takes_part(paths, ignore_inverted, entry, exit, r, i)
            && allele_of(idx, paths, entry, exit, i) == s
}

/// `rec` is the record of the bubble: reference path, position of the
/// entry on it, reference allele, distinct alternate alleles, each carried
/// by some compared path and listed in the order in which the paths first
/// carry them, and the allele of each path.
pub open spec fn record_is(
    idx: Map<u64, Seq<u8>>,
    paths: Seq<OffsetPath>,
    refs: Seq<Vec<u8>>,
    ignore_inverted: bool,
    entry: u64,
    exit: u64,
    rec: VariantRecord,
) -> bool {
    let r = ref_from(paths, refs, entry, exit, 0);
    let refal = allele_of(idx, paths, entry, exit, r);
    &&& r < paths.len() && differs(idx, paths, ignore_inverted, entry, exit, r)
    &&& rec.path@ == paths[r].name@
    &&& rec.pos == paths[r].steps@[trav(paths[r].steps@, entry, exit).unwrap().0].offset
    &&& rec.reference@ == refal
    &&& forall|k: int, l: int| 0 <= k < l < rec.alts@.len() ==> rec.alts@[k]@ != rec.alts@[l]@
    &&& forall|k: int| 0 <= k < rec.alts@.len() ==> #[trigger] rec.alts@[k]@ != refal
    &&& rec.genotypes@.len() == paths.len()
    &&& forall|j: int| 0 <= j < paths.len() ==> {
        let g = #[trigger] rec.genotypes@[j];
        if takes_part(paths, ignore_inverted, entry, exit, r, j) {
            &&& g is Some
            &&& (g.unwrap() == 0 <==> allele_of(idx, paths, entry, exit, j) == refal)
            &&& g.unwrap() > 0 ==> g.unwrap() - 1 < rec.alts@.len() && rec.alts@[g.unwrap() - 1]@
                == allele_of(idx, paths, entry, exit, j)
        } else {
            g is None
        }
    }
    &&& forall|k: int|
        0 <= k < rec.alts@.len() ==> carried(idx, paths, ignore_inverted, entry, exit, r, #[trigger] rec.alts@[k]@)
    &&& forall|k: int, l: int, j: int|
        0 <= k < l < rec.alts@.len() && 0 <= j < paths.len() && #[trigger] takes_part(
            paths,
            ignore_inverted,
            entry,
            exit,
            r,
            j,
        ) && allele_of(idx, paths, entry, exit, j) == #[trigger] rec.alts@[l]@ ==> carried_before(
            idx,
            paths,
            ignore_inverted,
            entry,
            exit,
            r,
            #[trigger] rec.alts@[k]@,
            j,
        )
}

/// What a readable bubble yields: `None` where no path may give the
/// reference, or no compared path differs from it; else its record.
pub open spec fn record_ok(
    idx: Map<u64, Seq<u8>>,
    paths: Seq<OffsetPath>,
    refs: Seq<Vec<u8>>,
    ignore_inverted: bool,
    entry: u64,
    exit: u64,
    res: Option<VariantRecord>,
) -> bool {
    let r = ref_from(paths, refs, entry, exit, 0);
    match res {
        None => r >= paths.len() || !differs(idx, paths, ignore_inverted, entry, exit, r),
        Some(rec) => record_is(idx, paths, refs, ignore_inverted, entry, exit, rec),
    }
}

fn name_in(refs: &Vec<Vec<u8>>, name: &Vec<u8>) -> (r: bool)
    ensures
        r == in_refs(refs@, name@),
{
    let mut k: usize = 0;
    while k < refs.len()
        invariant
            k <= refs@.len(),
            forall|l: int| 0 <= l < k ==> refs@[l]@ != name@,
        decreases refs@.len() - k,
    {
        if bytes_eq(&refs[k], name) {
            return true;
        }
        k = k + 1;
    }
    false
}

/// Compares the paths that cross the bubble `(entry, exit)`. The reference
/// is the first path that crosses it, among the named reference paths where
/// `refs` is not empty; the others are compared with it, leaving out those
/// that cross it in the other direction when `ignore_inverted` is set.
pub fn bubble_variant(
    idx: &SegmentIndex,
    paths: &Vec<OffsetPath>,
    refs: &Vec<Vec<u8>>,
    ignore_inverted: bool,
    entry: u64,
    exit: u64,
) -> (r: Result<Option<VariantRecord>, MissingSegment>)
    ensures
        match r {
            Ok(res) => !bubble_missing(idx@, paths@, entry, exit) && record_ok(
                idx@,
                paths@,
                refs@,
                ignore_inverted,
                entry,
                exit,
                res,
            ),
            Err(e) => !idx@.contains_key(e.id) && bubble_missing(idx@, paths@, entry, exit),
        },
        r is Err <==> bubble_missing(idx@, paths@, entry, exit),
{
    if idx.get(entry).is_none() {
        return Err(MissingSegment { id: entry });
    }
    if idx.get(exit).is_none() {
        return Err(MissingSegment { id: exit });
    }
    let ghost pv = paths@;
    let mut travs: Vec<Option<(usize, usize)>> = Vec::new();
    let mut alleles: Vec<Vec<u8>> = Vec::new();
    let mut j: usize = 0;
    while j < paths.len()
        invariant
            j <= paths@.len(),
            pv == paths@,
            travs@.len() == j,
            alleles@.len() == j,
            forall|l: int| 0 <= l < j ==> (#[trigger] travs@[l] is Some <==> trav(pv[l].steps@, entry, exit) is Some),
            forall|l: int| 0 <= l < j && #[trigger] travs@[l] is Some ==> {
                let t = trav(pv[l].steps@, entry, exit).unwrap();
                &&& (travs@[l].unwrap().0 as int, travs@[l].unwrap().1 as int) == t
                &&& span_present(idx@, pv[l].steps@, span_of(t).0, span_of(t).1)
                &&& alleles@[l]@ == allele_of(idx@, pv, entry, exit, l)
            },
        decreases paths@.len() - j,
    {
        let steps = &paths[j].steps;
        match path_trav(steps, entry, exit) {
            None => {
                travs.push(None);
                alleles.push(Vec::new());
            },
            Some((a, b)) => {
                match path_allele(idx, steps, a, b) {
                    Err(e) => {
                        assert(trav(pv[j as int].steps@, entry, exit) is Some);
                        return Err(e);
                    },
                    Ok(s) => {
                        travs.push(Some((a, b)));
                        alleles.push(s);
                    },
                }
            },
        }
        j = j + 1;
    }
    assert(!bubble_missing(idx@, pv, entry, exit)) by {
        assert forall|l: int| 0 <= l < pv.len() && (#[trigger] trav(pv[l].steps@, entry, exit)) is Some
            implies span_present(idx@, pv[l].steps@, span_of(trav(pv[l].steps@, entry, exit).unwrap()).0,
                span_of(trav(pv[l].steps@, entry, exit).unwrap()).1) by {
            assert(travs@[l] is Some);
        }
    }
    // the reference path
    let mut r: usize = 0;
    while r < paths.len() && !(travs[r].is_some() && (refs.len() == 0 || name_in(refs, &paths[r].name)))
        invariant
            r <= paths@.len(),
            pv == paths@,
            travs@.len() == paths@.len(),
            forall|l: int| 0 <= l < paths@.len() ==> (#[trigger] travs@[l] is Some <==> trav(pv[l].steps@, entry, exit) is Some),
            ref_from(pv, refs@, entry, exit, r as int) == ref_from(pv, refs@, entry, exit, 0),
        decreases paths@.len() - r,
    {
        r = r + 1;
    }
    if r == paths.len() {
        return Ok(None);
    }
    let (ra, rb) = travs[r].unwrap();
    let rfwd = ra < rb;
    let ghost refal = allele_of(idx@, pv, entry, exit, r as int);
    let mut alts: Vec<Vec<u8>> = Vec::new();
    let ghost mut wit: Seq<int> = seq![];
    let mut gts: Vec<Option<usize>> = Vec::new();
    let mut j: usize = 0;
    while j < paths.len()
        invariant
            j <= paths@.len(),
            r < paths@.len(),
            pv == paths@,
            r == ref_from(pv, refs@, entry, exit, 0),
            travs@.len() == paths@.len(),
            alleles@.len() == paths@.len(),
            travs@[r as int] == Some((ra, rb)),
            rfwd == (ra < rb),
            refal == alleles@[r as int]@,
            forall|l: int| 0 <= l < paths@.len() ==> (#[trigger] travs@[l] is Some <==> trav(pv[l].steps@, entry, exit) is Some),
            forall|l: int| 0 <= l < paths@.len() && #[trigger] travs@[l] is Some ==> {
                let t = trav(pv[l].steps@, entry, exit).unwrap();
                &&& (travs@[l].unwrap().0 as int, travs@[l].unwrap().1 as int) == t
                &&& alleles@[l]@ == allele_of(idx@, pv, entry, exit, l)
            },
            gts@.len() == j,
            alts@.len() <= j,
            forall|k: int, l: int| 0 <= k < l < alts@.len() ==> alts@[k]@ != alts@[l]@,
            forall|k: int| 0 <= k < alts@.len() ==> #[trigger] alts@[k]@ != refal,
            wit.len() == alts@.len(),
            forall|k: int|
                0 <= k < alts@.len() ==> 0 <= #[trigger] wit[k] < j && gts@[wit[k]] == Some((k + 1) as usize)
                    && allele_of(idx@, pv, entry, exit, wit[k]) == alts@[k]@,
            forall|k: int, i: int|
                0 <= k < alts@.len() && 0 <= i < wit[k] && #[trigger] takes_part(pv, ignore_inverted, entry, exit, r as int, i)
                    ==> allele_of(idx@, pv, entry, exit, i) != #[trigger] alts@[k]@,
            forall|k: int, l: int| 0 <= k < l < alts@.len() ==> #[trigger] wit[k] < #[trigger] wit[l],
            forall|l: int| 0 <= l < j ==> {
                let g = #[trigger] gts@[l];
                if takes_part(pv, ignore_inverted, entry, exit, r as int, l) {
                    &&& g is Some
                    &&& (g.unwrap() == 0 <==> allele_of(idx@, pv, entry, exit, l) == refal)
                    &&& g.unwrap() > 0 ==> g.unwrap() - 1 < alts@.len() && alts@[g.unwrap() - 1]@
                        == allele_of(idx@, pv, entry, exit, l)
                } else {
                    g is None
                }
            },
            alts@.len() > 0 <==> exists|l: int| 0 <= l < j && #[trigger] takes_part(pv, ignore_inverted, entry, exit, r as int, l)
                && allele_of(idx@, pv, entry, exit, l) != refal,
        decreases paths@.len() - j,
    {
        let ghost old_alts = alts@;
        let ghost old_gts = gts@;
        let ghost mut fresh = false;
        let g: Option<usize> = match travs[j] {
            None => None,
            Some((a, b)) => {
                if ignore_inverted && ((a < b) != rfwd || paths[j].steps[a].orient != paths[r].steps[ra].orient
                    || paths[j].steps[b].orient != paths[r].steps[rb].orient) {
                    None
                } else if bytes_eq(&alleles[j], &alleles[r]) {
                    Some(0)
                } else {
                    let mut k: usize = 0;
                    while k < alts.len() && !bytes_eq(&alts[k], &alleles[j])
                        invariant
                            k <= alts@.len(),
                            j < alleles@.len(),
                            forall|m: int| 0 <= m < k ==> alts@[m]@ != alleles@[j as int]@,
                        decreases alts@.len() - k,
                    {
                        k = k + 1;
                    }
                    if k == alts.len() {
                        alts.push(copy_bytes(&alleles[j]));
                        assert(alts@[k as int]@ == allele_of(idx@, pv, entry, exit, j as int));
                        proof {
                            fresh = true;
                        }
                    }
                    assert(fresh ==> k == old_alts.len() && alts@ == old_alts.push(alts@[k as int])
                        && alts@[k as int]@ == allele_of(idx@, pv, entry, exit, j as int));
                    assert(!fresh ==> alts@ == old_alts);
                    Some(k + 1)
                }
            },
        };
        gts.push(g);
        assert(fresh ==> g == Some((old_alts.len() + 1) as usize) && alts@.len() == old_alts.len() + 1
            && alts@[old_alts.len() as int]@ == allele_of(idx@, pv, entry, exit, j as int)
            && forall|k: int| 0 <= k < old_alts.len() ==> alts@[k] == old_alts[k]);
        assert(!fresh ==> alts@ == old_alts);
        proof {
            if fresh {
                wit = wit.push(j as int);
            }
            assert forall|k: int| 0 <= k < alts@.len() implies 0 <= #[trigger] wit[k] < j + 1
                && gts@[wit[k]] == Some((k + 1) as usize) && allele_of(idx@, pv, entry, exit, wit[k]) == alts@[k]@ by {
                if k < old_alts.len() {
                    assert(old_alts[k] == alts@[k]);
                    assert(gts@[wit[k]] == old_gts[wit[k]]);
                }
            }
            assert forall|l: int| 0 <= l < j implies #[trigger] gts@[l] == old_gts[l] by {}
            assert forall|k: int, i: int|
                0 <= k < alts@.len() && 0 <= i < wit[k] && #[trigger] takes_part(pv, ignore_inverted, entry, exit, r as int, i)
                    implies allele_of(idx@, pv, entry, exit, i) != #[trigger] alts@[k]@ by {
                if k < old_alts.len() {
                    assert(old_alts[k] == alts@[k]);
                } else {
                    assert(fresh);
                    let g = gts@[i];
                    if allele_of(idx@, pv, entry, exit, i) == alts@[k]@ {
                        assert(g is Some);
                        assert(allele_of(idx@, pv, entry, exit, j as int) != refal);
                        assert(g.unwrap() > 0);
                        assert(old_alts[g.unwrap() - 1]@ == allele_of(idx@, pv, entry, exit, i));
                        assert(false);
                    }
                }
            }
            if takes_part(pv, ignore_inverted, entry, exit, r as int, j as int)
                && allele_of(idx@, pv, entry, exit, j as int) != refal {
                assert(alts@.len() > 0);
            }
        }
        j = j + 1;
    }
    if alts.len() == 0 {
        return Ok(None);
    }
    let rec = VariantRecord {
        path: copy_bytes(&paths[r].name),
        pos: paths[r].steps[ra].offset,
        reference: copy_bytes(&alleles[r]),
        alts,
        genotypes: gts,
    };
    assert forall|k: int| 0 <= k < rec.alts@.len() implies carried(
        idx@,
        pv,
        ignore_inverted,
        entry,
        exit,
        r as int,
        #[trigger] rec.alts@[k]@,
    ) by {
        assert(rec.genotypes@[wit[k]] == Some((k + 1) as usize));
        assert(takes_part(pv, ignore_inverted, entry, exit, r as int, wit[k]));
    }
    assert forall|k: int, l: int, jj: int|
        0 <= k < l < rec.alts@.len() && 0 <= jj < pv.len() && #[trigger] takes_part(
            pv,
            ignore_inverted,
            entry,
            exit,
            r as int,
            jj,
        ) && allele_of(idx@, pv, entry, exit, jj) == #[trigger] rec.alts@[l]@ implies carried_before(
            idx@,
            pv,
            ignore_inverted,
            entry,
            exit,
            r as int,
            #[trigger] rec.alts@[k]@,
            jj,
        ) by {
        assert(wit[k] < wit[l]);
        assert(wit[l] <= jj);
        assert(takes_part(pv, ignore_inverted, entry, exit, r as int, wit[k]));
    }
    assert(record_is(idx@, pv, refs@, ignore_inverted, entry, exit, rec));
    Ok(Some(rec))
}

} // verus!
