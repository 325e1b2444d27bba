//! Ultrabubble lists: parsing them from text lines and turning them into
//! the entry-to-exit pool.
use vstd::prelude::*;
use std::collections::HashMap;

verus! {

broadcast use vstd::std_specs::hash::group_hash_axioms;

/// Field separator of an ultrabubble line.
pub const TAB: u8 = 9;

/// A line of an ultrabubble list that does not hold two decimal ids;
/// `line` is its zero-based index.
#[derive(Clone, Copy, Debug, PartialEq, Eq, Structural)]
pub struct LoadError {
    pub line: usize,
}

/// Two bubbles of one list share an entry id.
#[derive(Clone, Copy, Debug, PartialEq, Eq, Structural)]
pub struct DuplicateEntry {
    pub entry: u64,
}

pub open spec fn is_digit(c: u8) -> bool {
    48 <= c <= 57
}

/// The value of a string of decimal digits.
pub open spec fn decimal(s: Seq<u8>) -> nat
    decreases s.len(),
{
    if s.len() == 0 {
        0
    } else {
        decimal(s.drop_last()) * 10 + (s.last() - 48) as nat
    }
}

/// A non-empty run of decimal digits whose value fits in a `u64`.
pub open spec fn is_id(s: Seq<u8>) -> bool {
    s.len() > 0 && (forall|i: int| 0 <= i < s.len() ==> is_digit(#[trigger] s[i])) && decimal(s)
        <= u64::MAX
}

/// Index of the first tab at or after `from`, or the length if none.
pub open spec fn field_end(s: Seq<u8>, from: int) -> int
    decreases s.len() - from,
{
    if from >= s.len() {
        s.len() as int
    } else if s[from] == TAB {
        from
    } else {
        field_end(s, from + 1)
    }
}

/// The bubble a line gives: its first two tab-separated fields, both ids;
/// fields after the second are ignored.
pub open spec fn line_bubble(s: Seq<u8>) -> Option<(u64, u64)> {
    let e1 = field_end(s, 0);
    let e2 = field_end(s, e1 + 1);
    if e1 < s.len() && is_id(s.subrange(0, e1)) && is_id(s.subrange(e1 + 1, e2)) {
        Some((decimal(s.subrange(0, e1)) as u64, decimal(s.subrange(e1 + 1, e2)) as u64))
    } else {
        None
    }
}

proof fn lemma_field_end(s: Seq<u8>, from: int)
    requires
        0 <= from,
    ensures
        from <= field_end(s, from) <= s.len() || (from > s.len() && field_end(s, from) == s.len()),
        field_end(s, from) < s.len() ==> s[field_end(s, from)] == TAB,
        forall|i: int| from <= i < field_end(s, from) ==> s[i] != TAB,
    decreases s.len() - from,
{
    if from < s.len() && s[from] != TAB {
        lemma_field_end(s, from + 1);
    }
}

fn find_tab(s: &Vec<u8>, from: usize) -> (r: usize)
    requires
        from <= s@.len(),
    ensures
        r == field_end(s@, from as int),
{
    let mut i = from;
    while i < s.len() && s[i] != TAB
        invariant
            from <= i <= s@.len(),
            field_end(s@, i as int) == field_end(s@, from as int),
        decreases s@.len() - i,
    {
        i = i + 1;
    }
    i
}

proof fn lemma_decimal_bound(s: Seq<u8>, n: int)
    requires
        0 <= n <= s.len(),
        forall|i: int| 0 <= i < s.len() ==> is_digit(#[trigger] s[i]),
    ensures
        decimal(s.subrange(0, n)) <= decimal(s),
    decreases s.len() - n,
{
    if n < s.len() {
        lemma_decimal_bound(s, n + 1);
        assert(s.subrange(0, n + 1).drop_last() =~= s.subrange(0, n));
    } else {
        assert(s.subrange(0, n) =~= s);
    }
}

/// The value of `s[start..end]` when it is an id.
fn parse_id(s: &Vec<u8>, start: usize, end: usize) -> (r: Option<u64>)
    requires
        start <= end <= s@.len(),
    ensures
        match r {
            Some(v) => is_id(s@.subrange(start as int, end as int)) && v == decimal(
                s@.subrange(start as int, end as int),
            ),
            None => !is_id(s@.subrange(start as int, end as int)),
        },
{
    let ghost f = s@.subrange(start as int, end as int);
    if start == end {
        return None;
    }
    let mut v: u64 = 0;
    let mut i = start;
    while i < end
        invariant
            start <= i <= end <= s@.len(),
            f == s@.subrange(start as int, end as int),
            forall|k: int| 0 <= k < i - start ==> is_digit(#[trigger] f[k]),
            v == decimal(f.subrange(0, i - start)),
        decreases end - i,
    {
        let c = s[i];
        if c < 48 || c > 57 {
            assert(!is_digit(f[i - start]));
            return None;
        }
        assert(f.subrange(0, i + 1 - start).drop_last() =~= f.subrange(0, i - start));
        let d = (c - 48) as u64;
        if v > (u64::MAX - d) / 10 {
            proof {
                assert(decimal(f.subrange(0, i + 1 - start)) > u64::MAX) by (nonlinear_arith)
                    requires
                        v > (u64::MAX - d) / 10,
                        decimal(f.subrange(0, i + 1 - start)) == v * 10 + d,
                        d <= 9,
                ;
                if is_id(f) {
                    lemma_decimal_bound(f, i + 1 - start);
                }
            }
            return None;
        }
        v = v * 10 + d;
        i = i + 1;
    }
    assert(f.subrange(0, end - start) =~= f);
    Some(v)
}

/// Parses one ultrabubble line: two decimal ids separated by a tab.
pub fn parse_bubble_line(s: &Vec<u8>) -> (r: Option<(u64, u64)>)
    ensures
        r == line_bubble(s@),
{
    let e1 = find_tab(s, 0);
    proof {
        lemma_field_end(s@, 0);
    }
    if e1 >= s.len() {
        return None;
    }
    let e2 = find_tab(s, e1 + 1);
    proof {
        lemma_field_end(s@, e1 + 1);
    }
    match (parse_id(s, 0, e1), parse_id(s, e1 + 1, e2)) {
        (Some(a), Some(b)) => Some((a, b)),
        _ => None,
    }
}

/// Parses an ultrabubble list, one bubble per line. Fails on the first
/// line that is not two tab-separated decimal ids.
pub fn load_ultrabubbles(lines: &Vec<Vec<u8>>) -> (r: Result<Vec<(u64, u64)>, LoadError>)
    ensures
        match r {
            Ok(v) => v@.len() == lines@.len() && forall|i: int|
                0 <= i < lines@.len() ==> line_bubble(#[trigger] lines@[i]@) == Some(v@[i]),
            Err(e) => e.line < lines@.len() && line_bubble(lines@[e.line as int]@) is None
                && forall|i: int| 0 <= i < e.line ==> line_bubble(#[trigger] lines@[i]@) is Some,
        },
        r is Ok <==> forall|i: int| 0 <= i < lines@.len() ==> line_bubble(#[trigger] lines@[i]@) is Some,
{
    let mut out: Vec<(u64, u64)> = Vec::new();
    let mut i: usize = 0;
    while i < lines.len()
        invariant
            i <= lines@.len(),
            out@.len() == i,
            forall|k: int| 0 <= k < i ==> line_bubble(#[trigger] lines@[k]@) == Some(out@[k]),
        decreases lines@.len() - i,
    {
        match parse_bubble_line(&lines[i]) {
            Some(b) => {
                out.push(b);
            },
            None => {
                return Err(LoadError { line: i });
            },
        }
        i = i + 1;
    }
    Ok(out)
}

/// The entries of a bubble list are pairwise distinct.
pub open spec fn unique_entries(b: Seq<(u64, u64)>) -> bool {
    forall|i: int, j: int| 0 <= i < j < b.len() ==> b[i].0 != b[j].0
}

/// The entry-to-exit map of a bubble list with distinct entries; a list in
/// which two bubbles share an entry is refused, naming that entry.
pub fn bubble_pool(b: &Vec<(u64, u64)>) -> (r: Result<HashMap<u64, u64>, DuplicateEntry>)
    ensures
        match r {
            Ok(m) => unique_entries(b@) && (forall|e: u64|
                m@.contains_key(e) <==> exists|i: int| 0 <= i < b@.len() && b@[i].0 == e) && (
            forall|i: int| 0 <= i < b@.len() ==> #[trigger] m@[b@[i].0] == b@[i].1),
            Err(d) => exists|i: int, j: int|
                0 <= i < j < b@.len() && b@[i].0 == d.entry && b@[j].0 == d.entry,
        },
        r is Ok <==> unique_entries(b@),
{
    let mut m: HashMap<u64, u64> = HashMap::new();
    let mut i: usize = 0;
    while i < b.len()
        invariant
            i <= b@.len(),
            unique_entries(b@.subrange(0, i as int)),
            forall|e: u64| m@.contains_key(e) <==> exists|k: int| 0 <= k < i && b@[k].0 == e,
            forall|k: int| 0 <= k < i ==> #[trigger] m@[b@[k].0] == b@[k].1,
        decreases b@.len() - i,
    {
        let (e, x) = b[i];
        if m.contains_key(&e) {
            let ghost k = choose|k: int| 0 <= k < i && b@[k].0 == e;
            return Err(DuplicateEntry { entry: e });
        }
        m.insert(e, x);
        i = i + 1;
        assert forall|k: int| 0 <= k < i implies #[trigger] m@[b@[k].0] == b@[k].1 by {
            if k < i - 1 {
                assert(b@.subrange(0, i - 1)[k].0 != e || b@[k].0 != e);
            }
        }
        assert forall|e2: u64| m@.contains_key(e2) <==> exists|k: int| 0 <= k < i && b@[k].0 == e2 by {
            if e2 == e {
                assert(b@[i - 1].0 == e);
            }
            if exists|k: int| 0 <= k < i && b@[k].0 == e2 {
                let k = choose|k: int| 0 <= k < i && b@[k].0 == e2;
                if k < i - 1 {
                    assert(m@.contains_key(e2));
                }
            }
        }
        assert forall|p: int, q: int| 0 <= p < q < i implies b@.subrange(0, i as int)[p].0 != b@.subrange(0, i as int)[q].0 by {
            if q < i - 1 {
                assert(b@.subrange(0, i - 1)[p].0 != b@.subrange(0, i - 1)[q].0);
            } else {
                assert(!(exists|k: int| 0 <= k < i - 1 && b@[k].0 == e));
            }
        }
    }
    assert(b@.subrange(0, b@.len() as int) =~= b@);
    Ok(m)
}

} // verus!

verus! {

/// Order on bubbles: by entry, then by exit.
pub open spec fn pair_le(a: (u64, u64), b: (u64, u64)) -> bool {
    a.0 < b.0 || (a.0 == b.0 && a.1 <= b.1)
}

pub open spec fn pairs_sorted(s: Seq<(u64, u64)>) -> bool {
    forall|i: int, j: int| 0 <= i < j < s.len() ==> pair_le(s[i], s[j])
}

/// Sorts bubbles by entry id, then exit id, ascending.
pub fn sort_bubbles(b: Vec<(u64, u64)>) -> (r: Vec<(u64, u64)>)
    ensures
        pairs_sorted(r@),
        r@.to_multiset() == b@.to_multiset(),
{
    broadcast use vstd::seq_lib::group_to_multiset_ensures;

    let ghost orig = b@;
    let mut rest = b;
    let mut out: Vec<(u64, u64)> = Vec::new();
    while rest.len() > 0
        invariant
            pairs_sorted(out@),
            out@.to_multiset().add(rest@.to_multiset()) == orig.to_multiset(),
        decreases rest@.len(),
    {
        let ghost before = rest@;
        let x = rest.pop().unwrap();
        proof {
            assert(rest@ =~= before.remove(before.len() - 1));
            vstd::seq_lib::to_multiset_remove(before, before.len() - 1);
        }
        let mut p: usize = 0;
        while p < out.len() && pair_le_exec(out[p], x)
            invariant
                p <= out@.len(),
                forall|q: int| 0 <= q < p ==> pair_le(#[trigger] out@[q], x),
            decreases out@.len() - p,
        {
            p = p + 1;
        }
        let ghost old_out = out@;
        out.insert(p, x);
        proof {
            vstd::seq_lib::to_multiset_insert(old_out, p as int, x);
            assert(before[before.len() - 1] == x);
            assert(before.contains(x));
            before.to_multiset_ensures();
            assert(before.to_multiset().count(x) > 0);
            assert(before.to_multiset().remove(x).insert(x) =~= before.to_multiset());
            assert(out@.to_multiset().add(rest@.to_multiset()) =~= orig.to_multiset());
            assert forall|i: int, j: int| 0 <= i < j < out@.len() implies pair_le(out@[i], out@[j]) by {
                if j < p {
                    assert(pair_le(old_out[i], old_out[j]));
                } else if j == p {
                    assert(pair_le(old_out[i], x));
                } else if i == p {
                    assert(!pair_le(old_out[p as int], x));
                    if j - 1 > p {
                        assert(pair_le(old_out[p as int], old_out[j - 1]));
                    }
                } else if i < p {
                    assert(pair_le(old_out[i], x));
                    assert(!pair_le(old_out[p as int], x));
                    if j - 1 > p {
                        assert(pair_le(old_out[p as int], old_out[j - 1]));
                    }
                } else {
                    assert(pair_le(old_out[i - 1], old_out[j - 1]));
                }
            }
        }
    }
    proof {
        assert(rest@ =~= Seq::<(u64, u64)>::empty());
        assert(rest@.to_multiset() =~= vstd::multiset::Multiset::empty());
    }
    out
}

fn pair_le_exec(a: (u64, u64), b: (u64, u64)) -> (r: bool)
    ensures
        r == pair_le(a, b),
{
    a.0 < b.0 || (a.0 == b.0 && a.1 <= b.1)
}

} // verus!
