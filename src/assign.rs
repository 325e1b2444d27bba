//! Greedy assignment of ultrabubbles to the first path that holds both
//! their entry and their exit.
use vstd::prelude::*;
use std::collections::HashMap;
use crate::graph::OffsetStep;

verus! {

broadcast use vstd::std_specs::hash::group_hash_axioms;

/// A named path given as its steps with offsets.
pub struct OffsetPath {
    pub name: Vec<u8>,
    pub steps: Vec<OffsetStep>,
}

/// The ultrabubbles, as (entry, exit) pairs, that a path was the first to
/// hold, how many bubbles were still unassigned after it, and the path's
/// index among all paths.
pub struct Assignment {
    pub name: Vec<u8>,
    pub bubbles: Vec<(u64, u64)>,
    pub remaining: usize,
    pub index: usize,
}

pub open spec fn paths_view(paths: Seq<OffsetPath>) -> Seq<(Seq<u8>, Seq<OffsetStep>)> {
    Seq::new(paths.len(), |i: int| (paths[i].name@, paths[i].steps@))
}

pub open spec fn records_view(recs: Seq<Assignment>) -> Seq<(Seq<u8>, Seq<(u64, u64)>, nat, nat)> {
    Seq::new(
        recs.len(),
        |i: int| (recs[i].name@, recs[i].bubbles@, recs[i].remaining as nat, recs[i].index as nat),
    )
}

/// Segment `id` is visited by some step.
pub open spec fn on_path(steps: Seq<OffsetStep>, id: u64) -> bool {
    exists|i: int| 0 <= i < steps.len() && steps[i].id == id
}

/// For each step whose segment is an entry of the pool, in step order,
/// the pair (exit, entry).
pub open spec fn tentative(pool: Map<u64, u64>, steps: Seq<OffsetStep>) -> Seq<(u64, u64)>
    decreases steps.len(),
{
    if steps.len() == 0 {
        seq![]
    } else {
        let rest = tentative(pool, steps.drop_last());
        let id = steps.last().id;
        if pool.contains_key(id) {
            rest.push((pool[id], id))
        } else {
            rest
        }
    }
}

/// `acc` followed by the tentative pairs whose exit is `id`, turned into
/// (entry, exit), each added only where it is not listed yet.
pub open spec fn add_matches(acc: Seq<(u64, u64)>, tent: Seq<(u64, u64)>, id: u64) -> Seq<(u64, u64)>
    decreases tent.len(),
{
    if tent.len() == 0 {
        acc
    } else {
        let rest = add_matches(acc, tent.drop_last(), id);
        let p = tent.last();
        if p.0 == id && !rest.contains((p.1, p.0)) {
            rest.push((p.1, p.0))
        } else {
            rest
        }
    }
}

/// For each step in order, the tentative pairs whose exit is that step,
/// each pair listed once.
pub open spec fn confirmed(tent: Seq<(u64, u64)>, steps: Seq<OffsetStep>) -> Seq<(u64, u64)>
    decreases steps.len(),
{
    if steps.len() == 0 {
        seq![]
    } else {
        add_matches(confirmed(tent, steps.drop_last()), tent, steps.last().id)
    }
}

/// The entries of a list of (entry, exit) pairs.
pub open spec fn entries(pairs: Seq<(u64, u64)>) -> Set<u64> {
    Set::new(|e: u64| exists|i: int| 0 <= i < pairs.len() && pairs[i].0 == e)
}

/// The bubbles that a path confirms out of a pool.
pub open spec fn path_bubbles(pool: Map<u64, u64>, steps: Seq<OffsetStep>) -> Seq<(u64, u64)> {
    confirmed(tentative(pool, steps), steps)
}

/// Records and remaining pool after the first `n` paths.
pub open spec fn run(
    pool: Map<u64, u64>,
    paths: Seq<(Seq<u8>, Seq<OffsetStep>)>,
    n: int,
) -> (Seq<(Seq<u8>, Seq<(u64, u64)>, nat, nat)>, Map<u64, u64>)
    decreases n,
{
    if n <= 0 {
        (seq![], pool)
    } else {
        let prev = run(pool, paths, n - 1);
        let rem = prev.1;
        if rem.dom().len() == 0 {
            prev
        } else {
            let c = path_bubbles(rem, paths[n - 1].1);
            let after = rem.remove_keys(entries(c));
            let recs = if c.len() > 0 {
                prev.0.push((paths[n - 1].0, c, after.dom().len(), (n - 1) as nat))
            } else {
                prev.0
            };
            (recs, after)
        }
    }
}

proof fn lemma_confirmed_empty(steps: Seq<OffsetStep>)
    ensures
        confirmed(seq![], steps) == Seq::<(u64, u64)>::empty(),
    decreases steps.len(),
{
    if steps.len() > 0 {
        lemma_confirmed_empty(steps.drop_last());
        assert(confirmed(seq![], steps) =~= Seq::<(u64, u64)>::empty());
    }
}

proof fn lemma_run_stays(pool: Map<u64, u64>, paths: Seq<(Seq<u8>, Seq<OffsetStep>)>, i: int, n: int)
    requires
        0 <= i <= n,
        run(pool, paths, i).1.dom().len() == 0,
    ensures
        run(pool, paths, n) == run(pool, paths, i),
    decreases n - i,
{
    if i < n {
        lemma_run_stays(pool, paths, i, n - 1);
    }
}

proof fn lemma_entries_push(s: Seq<(u64, u64)>, p: (u64, u64))
    ensures
        entries(s.push(p)) == entries(s).insert(p.0),
{
    assert forall|e: u64| entries(s.push(p)).contains(e) <==> entries(s).insert(p.0).contains(e) by {
        if entries(s).contains(e) {
            let t = choose|t: int| 0 <= t < s.len() && s[t].0 == e;
            assert(s.push(p)[t].0 == e);
        }
        if e == p.0 {
            assert(s.push(p)[s.len() as int].0 == e);
        }
        if entries(s.push(p)).contains(e) && e != p.0 {
            let t = choose|t: int| 0 <= t < s.len() + 1 && s.push(p)[t].0 == e;
            assert(s[t].0 == e);
        }
    }
    assert(entries(s.push(p)) =~= entries(s).insert(p.0));
}

/// A copy of a byte string.
pub fn copy_bytes(v: &Vec<u8>) -> (r: Vec<u8>)
    ensures
        r@ == v@,
{
    let mut r: Vec<u8> = Vec::new();
    let mut i: usize = 0;
    while i < v.len()
        invariant
            i <= v@.len(),
            r@ == v@.subrange(0, i as int),
        decreases v@.len() - i,
    {
        r.push(v[i]);
        i = i + 1;
        assert(r@ =~= v@.subrange(0, i as int));
    }
    assert(r@ =~= v@);
    r
}

fn tentative_pairs(pool: &HashMap<u64, u64>, steps: &Vec<OffsetStep>) -> (r: Vec<(u64, u64)>)
    ensures
        r@ == tentative(pool@, steps@),
{
    let mut r: Vec<(u64, u64)> = Vec::new();
    let mut j: usize = 0;
    while j < steps.len()
        invariant
            j <= steps@.len(),
            r@ == tentative(pool@, steps@.subrange(0, j as int)),
        decreases steps@.len() - j,
    {
        let x = steps[j].id;
        assert(steps@.subrange(0, j + 1).drop_last() =~= steps@.subrange(0, j as int));
        match pool.get(&x) {
            Some(y) => {
                r.push((*y, x));
            },
            None => {},
        }
        j = j + 1;
    }
    assert(steps@.subrange(0, steps@.len() as int) =~= steps@);
    r
}

fn pair_listed(v: &Vec<(u64, u64)>, p: (u64, u64)) -> (r: bool)
    ensures
        r == v@.contains(p),
{
    let mut i: usize = 0;
    while i < v.len()
        invariant
            i <= v@.len(),
            forall|k: int| 0 <= k < i ==> v@[k] != p,
        decreases v@.len() - i,
    {
        let q = v[i];
        if q.0 == p.0 && q.1 == p.1 {
            return true;
        }
        i = i + 1;
    }
    false
}

fn confirmed_pairs(tent: &Vec<(u64, u64)>, steps: &Vec<OffsetStep>) -> (r: Vec<(u64, u64)>)
    ensures
        r@ == confirmed(tent@, steps@),
{
    let mut r: Vec<(u64, u64)> = Vec::new();
    let mut j: usize = 0;
    while j < steps.len()
        invariant
            j <= steps@.len(),
            r@ == confirmed(tent@, steps@.subrange(0, j as int)),
        decreases steps@.len() - j,
    {
        let y = steps[j].id;
        let ghost before = r@;
        let mut k: usize = 0;
        while k < tent.len()
            invariant
                j < steps@.len(),
                y == steps@[j as int].id,
                k <= tent@.len(),
                r@ == add_matches(before, tent@.subrange(0, k as int), y),
            decreases tent@.len() - k,
        {
            let (a, b) = tent[k];
            assert(tent@.subrange(0, k + 1).drop_last() =~= tent@.subrange(0, k as int));
            if a == y && !pair_listed(&r, (b, a)) {
                r.push((b, a));
            }
            k = k + 1;
        }
        assert(tent@.subrange(0, tent@.len() as int) =~= tent@);
        assert(steps@.subrange(0, j + 1).drop_last() =~= steps@.subrange(0, j as int));
        j = j + 1;
    }
    assert(steps@.subrange(0, steps@.len() as int) =~= steps@);
    r
}

/// Assigns each bubble of `pool` (entry to exit) to the first path, in
/// order, on which both its entry and its exit lie; scanning stops once
/// every bubble has an owner. Returns the records of the paths that took
/// at least one bubble and the bubbles left unassigned.
pub fn assign_bubbles(paths: &Vec<OffsetPath>, pool: HashMap<u64, u64>) -> (r: (
    Vec<Assignment>,
    HashMap<u64, u64>,
))
    ensures
        records_view(r.0@) == run(pool@, paths_view(paths@), paths@.len() as int).0,
        r.1@ == run(pool@, paths_view(paths@), paths@.len() as int).1,
{
    let ghost pv = paths_view(paths@);
    let mut remaining = pool;
    let mut recs: Vec<Assignment> = Vec::new();
    let mut i: usize = 0;
    while i < paths.len()
        invariant
            i <= paths@.len(),
            pv == paths_view(paths@),
            records_view(recs@) == run(pool@, pv, i as int).0,
            remaining@ == run(pool@, pv, i as int).1,
        ensures
            records_view(recs@) == run(pool@, pv, paths@.len() as int).0,
            remaining@ == run(pool@, pv, paths@.len() as int).1,
        decreases paths@.len() - i,
    {
        if remaining.is_empty() {
            proof {
                lemma_run_stays(pool@, pv, i as int, paths@.len() as int);
            }
            break;
        }
        let steps = &paths[i].steps;
        let tent = tentative_pairs(&remaining, steps);
        if tent.len() == 0 {
            proof {
                lemma_confirmed_empty(steps@);
                assert(tent@ =~= seq![]);
                assert(remaining@.remove_keys(entries(seq![])) =~= remaining@);
            }
            i = i + 1;
            continue;
        }
        let contained = confirmed_pairs(&tent, steps);
        let ghost start = remaining@;
        let mut k: usize = 0;
        while k < contained.len()
            invariant
                k <= contained@.len(),
                remaining@ == start.remove_keys(entries(contained@.subrange(0, k as int))),
            decreases contained@.len() - k,
        {
            let (x, _y) = contained[k];
            remaining.remove(&x);
            k = k + 1;
            proof {
                assert(contained@.subrange(0, k as int) =~= contained@.subrange(0, k - 1).push(contained@[k - 1]));
                lemma_entries_push(contained@.subrange(0, k - 1), contained@[k - 1]);
                assert(remaining@ =~= start.remove_keys(entries(contained@.subrange(0, k as int))));
            }
        }
        assert(contained@.subrange(0, contained@.len() as int) =~= contained@);
        if contained.len() > 0 {
            let name = copy_bytes(&paths[i].name);
            let left = remaining.len();
            recs.push(Assignment { name, bubbles: contained, remaining: left, index: i });
            assert(records_view(recs@) =~= run(pool@, pv, i + 1).0);
        }
        i = i + 1;
    }
    (recs, remaining)
}

} // verus!

verus! {

/// Both the entry and the exit of a bubble lie on a path.
pub open spec fn holds(steps: Seq<OffsetStep>, e: u64, x: u64) -> bool {
    on_path(steps, e) && on_path(steps, x)
}

/// Some path among the first `n` holds the bubble.
pub open spec fn held_by(paths: Seq<(Seq<u8>, Seq<OffsetStep>)>, n: int, e: u64, x: u64) -> bool {
    exists|j: int| 0 <= j < n && holds(#[trigger] paths[j].1, e, x)
}

proof fn lemma_tentative_has(pool: Map<u64, u64>, steps: Seq<OffsetStep>, a: u64, b: u64)
    ensures
        tentative(pool, steps).contains((a, b)) <==> (pool.contains_key(b) && a == pool[b]
            && on_path(steps, b)),
    decreases steps.len(),
{
    if steps.len() > 0 {
        let init = steps.drop_last();
        lemma_tentative_has(pool, init, a, b);
        let t = tentative(pool, steps);
        let ti = tentative(pool, init);
        if on_path(steps, b) && !on_path(init, b) {
            let i = choose|i: int| 0 <= i < steps.len() && steps[i].id == b;
            if i < steps.len() - 1 {
                assert(init[i].id == b);
            }
        }
        if on_path(init, b) {
            let i = choose|i: int| 0 <= i < init.len() && init[i].id == b;
            assert(steps[i].id == b);
        }
        if pool.contains_key(steps.last().id) {
            assert(t == ti.push((pool[steps.last().id], steps.last().id)));
            if t.contains((a, b)) && !ti.contains((a, b)) {
                let k = choose|k: int| 0 <= k < t.len() && t[k] == (a, b);
                if k < ti.len() {
                    assert(ti[k] == (a, b));
                }
            }
            if ti.contains((a, b)) {
                let k = choose|k: int| 0 <= k < ti.len() && ti[k] == (a, b);
                assert(t[k] == (a, b));
            }
            if pool.contains_key(b) && a == pool[b] && steps.last().id == b {
                assert(t[ti.len() as int] == (a, b));
            }
        }
    }
}

proof fn lemma_push_contains(s: Seq<(u64, u64)>, p: (u64, u64), q: (u64, u64))
    ensures
        s.push(p).contains(q) <==> (s.contains(q) || q == p),
{
    if s.push(p).contains(q) && q != p {
        let k = choose|k: int| 0 <= k < s.len() + 1 && s.push(p)[k] == q;
        assert(s[k] == q);
    }
    if s.contains(q) {
        let k = choose|k: int| 0 <= k < s.len() && s[k] == q;
        assert(s.push(p)[k] == q);
    }
    if q == p {
        assert(s.push(p)[s.len() as int] == q);
    }
}

proof fn lemma_add_has(acc: Seq<(u64, u64)>, tent: Seq<(u64, u64)>, id: u64, e: u64, x: u64)
    ensures
        add_matches(acc, tent, id).contains((e, x)) <==> (acc.contains((e, x)) || (tent.contains((x, e))
            && x == id)),
    decreases tent.len(),
{
    if tent.len() > 0 {
        let init = tent.drop_last();
        lemma_add_has(acc, init, id, e, x);
        lemma_push_contains(init, tent.last(), (x, e));
        assert(init.push(tent.last()) =~= tent);
        let rest = add_matches(acc, init, id);
        let p = tent.last();
        lemma_push_contains(rest, (p.1, p.0), (e, x));
        if p.0 == id && !rest.contains((p.1, p.0)) {
        } else if (x, e) == p && x == id {
            assert(rest.contains((e, x)));
        }
    }
}

/// Pairs listed once each.
pub open spec fn no_dups(s: Seq<(u64, u64)>) -> bool {
    forall|k: int, l: int| 0 <= k < l < s.len() ==> s[k] != s[l]
}

proof fn lemma_add_no_dups(acc: Seq<(u64, u64)>, tent: Seq<(u64, u64)>, id: u64)
    requires
        no_dups(acc),
    ensures
        no_dups(add_matches(acc, tent, id)),
    decreases tent.len(),
{
    if tent.len() > 0 {
        lemma_add_no_dups(acc, tent.drop_last(), id);
        let rest = add_matches(acc, tent.drop_last(), id);
        let p = tent.last();
        if p.0 == id && !rest.contains((p.1, p.0)) {
            let n = rest.push((p.1, p.0));
            assert forall|k: int, l: int| 0 <= k < l < n.len() implies n[k] != n[l] by {
                if l == rest.len() {
                    assert(n[k] == rest[k]);
                }
            }
        }
    }
}

proof fn lemma_confirmed_no_dups(tent: Seq<(u64, u64)>, steps: Seq<OffsetStep>)
    ensures
        no_dups(confirmed(tent, steps)),
    decreases steps.len(),
{
    if steps.len() > 0 {
        lemma_confirmed_no_dups(tent, steps.drop_last());
        lemma_add_no_dups(confirmed(tent, steps.drop_last()), tent, steps.last().id);
    }
}

proof fn lemma_confirmed_has(tent: Seq<(u64, u64)>, steps: Seq<OffsetStep>, e: u64, x: u64)
    ensures
        confirmed(tent, steps).contains((e, x)) <==> (tent.contains((x, e)) && on_path(steps, x)),
    decreases steps.len(),
{
    if steps.len() > 0 {
        let init = steps.drop_last();
        lemma_confirmed_has(tent, init, e, x);
        lemma_add_has(confirmed(tent, init), tent, steps.last().id, e, x);
        if on_path(steps, x) && !on_path(init, x) {
            let i = choose|i: int| 0 <= i < steps.len() && steps[i].id == x;
            if i < steps.len() - 1 {
                assert(init[i].id == x);
            }
        }
        if on_path(init, x) {
            let i = choose|i: int| 0 <= i < init.len() && init[i].id == x;
            assert(steps[i].id == x);
        }
    }
}

/// A path confirms exactly the bubbles of the pool whose entry and exit
/// both lie on it.
pub proof fn lemma_path_bubbles_has(pool: Map<u64, u64>, steps: Seq<OffsetStep>, e: u64, x: u64)
    ensures
        path_bubbles(pool, steps).contains((e, x)) <==> (pool.contains_key(e) && pool[e] == x
            && holds(steps, e, x)),
{
    lemma_confirmed_has(tentative(pool, steps), steps, e, x);
    lemma_tentative_has(pool, steps, x, e);
}

proof fn lemma_entries_of_bubbles(pool: Map<u64, u64>, steps: Seq<OffsetStep>, e: u64)
    ensures
        entries(path_bubbles(pool, steps)).contains(e) <==> (pool.contains_key(e) && holds(
            steps,
            e,
            pool[e],
        )),
{
    let c = path_bubbles(pool, steps);
    if entries(c).contains(e) {
        let t = choose|t: int| 0 <= t < c.len() && c[t].0 == e;
        assert(c.contains(c[t]));
        lemma_path_bubbles_has(pool, steps, e, c[t].1);
    }
    if pool.contains_key(e) && holds(steps, e, pool[e]) {
        lemma_path_bubbles_has(pool, steps, e, pool[e]);
        let t = choose|t: int| 0 <= t < c.len() && c[t] == (e, pool[e]);
        assert(c[t].0 == e);
    }
}

/// What `run` leaves after the first `n` paths: the bubbles that none of
/// them holds.
pub proof fn lemma_run_remaining(pool: Map<u64, u64>, paths: Seq<(Seq<u8>, Seq<OffsetStep>)>, n: int)
    requires
        pool.dom().finite(),
        0 <= n <= paths.len(),
    ensures
        forall|e: u64| #[trigger]
            run(pool, paths, n).1.contains_key(e) <==> (pool.contains_key(e) && !held_by(
                paths,
                n,
                e,
                pool[e],
            )),
        forall|e: u64| #[trigger]
            run(pool, paths, n).1.contains_key(e) ==> run(pool, paths, n).1[e] == pool[e],
        run(pool, paths, n).1.dom().finite(),
    decreases n,
{
    if n > 0 {
        lemma_run_remaining(pool, paths, n - 1);
        let prev = run(pool, paths, n - 1).1;
        let steps = paths[n - 1].1;
        if prev.dom().len() == 0 {
            assert forall|e: u64| pool.contains_key(e) implies held_by(paths, n - 1, e, pool[e]) by {
                if !held_by(paths, n - 1, e, pool[e]) {
                    assert(prev.dom().contains(e));
                    vstd::set_lib::lemma_set_empty_equivalency_len(prev.dom());
                }
            }
            assert forall|e: u64| pool.contains_key(e) && held_by(paths, n - 1, e, pool[e])
                implies held_by(paths, n, e, pool[e]) by {
                let j = choose|j: int| 0 <= j < n - 1 && holds(#[trigger] paths[j].1, e, pool[e]);
                assert(0 <= j < n);
            }
        } else {
            assert forall|e: u64| #[trigger]
                run(pool, paths, n).1.contains_key(e) <==> (pool.contains_key(e) && !held_by(
                    paths,
                    n,
                    e,
                    pool[e],
                )) by {
                lemma_entries_of_bubbles(prev, steps, e);
                if held_by(paths, n, e, pool[e]) && !held_by(paths, n - 1, e, pool[e]) {
                    let j = choose|j: int| 0 <= j < n && holds(#[trigger] paths[j].1, e, pool[e]);
                    assert(j == n - 1);
                }
                if held_by(paths, n - 1, e, pool[e]) {
                    let j = choose|j: int| 0 <= j < n - 1 && holds(#[trigger] paths[j].1, e, pool[e]);
                    assert(0 <= j < n);
                }
                if pool.contains_key(e) && !held_by(paths, n - 1, e, pool[e]) && holds(steps, e, pool[e]) {
                    assert(held_by(paths, n, e, pool[e]));
                }
            }
            let c = entries(path_bubbles(prev, steps));
            assert(run(pool, paths, n).1.dom() =~= prev.dom().difference(c));
        }
    }
}

} // verus!

verus! {

proof fn lemma_run_records(pool: Map<u64, u64>, paths: Seq<(Seq<u8>, Seq<OffsetStep>)>, n: int)
    requires
        pool.dom().finite(),
        0 <= n <= paths.len(),
    ensures
        ({
            let recs = run(pool, paths, n).0;
            let rem = run(pool, paths, n).1;
            &&& forall|i: int, b: (u64, u64)|
                0 <= i < recs.len() && #[trigger] recs[i].1.contains(b) ==> pool.contains_key(b.0)
                    && pool[b.0] == b.1 && !rem.contains_key(b.0)
            &&& forall|i: int, j: int, b: (u64, u64)|
                0 <= i < j < recs.len() && #[trigger] recs[i].1.contains(b) ==> !(
                #[trigger] recs[j].1.contains(b))
            &&& forall|e: u64|
                #[trigger] pool.contains_key(e) ==> rem.contains_key(e) || exists|i: int|
                    0 <= i < recs.len() && #[trigger] recs[i].1.contains((e, pool[e]))
            &&& forall|i: int, k: int, l: int|
                0 <= i < recs.len() && 0 <= k < l < recs[i].1.len() ==> #[trigger] recs[i].1[k]
                    != #[trigger] recs[i].1[l]
            &&& forall|i: int, b: (u64, u64)|
                0 <= i < recs.len() && #[trigger] recs[i].1.contains(b) ==> recs[i].3 < paths.len()
                    && holds(paths[recs[i].3 as int].1, b.0, b.1) && !held_by(paths, recs[i].3 as int, b.0, b.1)
            &&& forall|i: int, j: int| 0 <= i < j < recs.len() ==> #[trigger] recs[i].3 < #[trigger] recs[j].3
            &&& forall|i: int| 0 <= i < recs.len() ==> #[trigger] recs[i].3 < n
        }),
    decreases n,
{
    if n > 0 {
        lemma_run_records(pool, paths, n - 1);
        lemma_run_remaining(pool, paths, n - 1);
        lemma_run_remaining(pool, paths, n);
        let prev = run(pool, paths, n - 1);
        let cur = run(pool, paths, n);
        if prev.1.dom().len() != 0 {
            let steps = paths[n - 1].1;
            let c = path_bubbles(prev.1, steps);
            assert forall|b: (u64, u64)| #[trigger] c.contains(b) implies prev.1.contains_key(b.0)
                && pool[b.0] == b.1 && !cur.1.contains_key(b.0) && holds(steps, b.0, b.1)
                && !held_by(paths, n - 1, b.0, b.1) by {
                lemma_path_bubbles_has(prev.1, steps, b.0, b.1);
                lemma_entries_of_bubbles(prev.1, steps, b.0);
            }
            lemma_confirmed_no_dups(tentative(prev.1, steps), steps);
            assert forall|e: u64| #[trigger] pool.contains_key(e) implies cur.1.contains_key(e)
                || exists|i: int| 0 <= i < cur.0.len() && #[trigger] cur.0[i].1.contains((e, pool[e])) by {
                if !prev.1.contains_key(e) {
                    let i = choose|i: int| 0 <= i < prev.0.len() && #[trigger] prev.0[i].1.contains((e, pool[e]));
                    assert(cur.0[i] == prev.0[i]);
                } else if !cur.1.contains_key(e) {
                    lemma_entries_of_bubbles(prev.1, steps, e);
                    lemma_path_bubbles_has(prev.1, steps, e, pool[e]);
                    assert(c.contains((e, pool[e])));
                    assert(cur.0[prev.0.len() as int].1.contains((e, pool[e])));
                }
            }
        }
    }
}

/// Every bubble of the pool is, after all paths, either assigned to exactly
/// one path or left unassigned, never both; a record lists only bubbles of
/// the pool, each once; a bubble goes to the first path that holds both its
/// entry and its exit, and is left unassigned exactly when no path does;
/// records follow the order of the paths.
pub proof fn law_assignment_partition(pool: Map<u64, u64>, paths: Seq<(Seq<u8>, Seq<OffsetStep>)>)
    requires
        pool.dom().finite(),
    ensures
        ({
            let recs = run(pool, paths, paths.len() as int).0;
            let rem = run(pool, paths, paths.len() as int).1;
            &&& forall|i: int, b: (u64, u64)|
                0 <= i < recs.len() && #[trigger] recs[i].1.contains(b) ==> pool.contains_key(b.0)
                    && pool[b.0] == b.1 && !rem.contains_key(b.0)
            &&& forall|i: int, j: int, b: (u64, u64)|
                0 <= i < j < recs.len() && #[trigger] recs[i].1.contains(b) ==> !(
                #[trigger] recs[j].1.contains(b))
            &&& forall|e: u64|
                #[trigger] pool.contains_key(e) ==> rem.contains_key(e) || exists|i: int|
                    0 <= i < recs.len() && #[trigger] recs[i].1.contains((e, pool[e]))
            &&& forall|i: int, k: int, l: int|
                0 <= i < recs.len() && 0 <= k < l < recs[i].1.len() ==> #[trigger] recs[i].1[k]
                    != #[trigger] recs[i].1[l]
            &&& forall|i: int, b: (u64, u64)|
                0 <= i < recs.len() && #[trigger] recs[i].1.contains(b) ==> recs[i].3 < paths.len()
                    && holds(paths[recs[i].3 as int].1, b.0, b.1) && !held_by(paths, recs[i].3 as int, b.0, b.1)
            &&& forall|i: int, j: int| 0 <= i < j < recs.len() ==> #[trigger] recs[i].3 < #[trigger] recs[j].3
            &&& forall|e: u64| #[trigger]
                rem.contains_key(e) <==> (pool.contains_key(e) && !held_by(
                    paths,
                    paths.len() as int,
                    e,
                    pool[e],
                ))
            &&& forall|e: u64| #[trigger] rem.contains_key(e) ==> rem[e] == pool[e]
        }),
{
    lemma_run_records(pool, paths, paths.len() as int);
    lemma_run_remaining(pool, paths, paths.len() as int);
}

/// The bubbles left unassigned do not depend on the order of the paths.
pub proof fn law_remaining_order_independent(
    pool: Map<u64, u64>,
    paths: Seq<(Seq<u8>, Seq<OffsetStep>)>,
    reordered: Seq<(Seq<u8>, Seq<OffsetStep>)>,
)
    requires
        pool.dom().finite(),
        paths.to_multiset() == reordered.to_multiset(),
    ensures
        run(pool, paths, paths.len() as int).1 == run(pool, reordered, reordered.len() as int).1,
{
    broadcast use vstd::seq_lib::group_to_multiset_ensures;

    lemma_run_remaining(pool, paths, paths.len() as int);
    lemma_run_remaining(pool, reordered, reordered.len() as int);
    let a = run(pool, paths, paths.len() as int).1;
    let b = run(pool, reordered, reordered.len() as int).1;
    assert forall|e: u64| pool.contains_key(e) implies (held_by(paths, paths.len() as int, e, pool[e])
        <==> held_by(reordered, reordered.len() as int, e, pool[e])) by {
        if held_by(paths, paths.len() as int, e, pool[e]) {
            let j = choose|j: int| 0 <= j < paths.len() && holds(#[trigger] paths[j].1, e, pool[e]);
            assert(paths.contains(paths[j]));
            assert(paths.to_multiset().count(paths[j]) > 0);
            let k = choose|k: int| 0 <= k < reordered.len() && reordered[k] == paths[j];
            assert(holds(reordered[k].1, e, pool[e]));
        }
        if held_by(reordered, reordered.len() as int, e, pool[e]) {
            let j = choose|j: int| 0 <= j < reordered.len() && holds(#[trigger] reordered[j].1, e, pool[e]);
            assert(reordered.contains(reordered[j]));
            assert(reordered.to_multiset().count(reordered[j]) > 0);
            let k = choose|k: int| 0 <= k < paths.len() && paths[k] == reordered[j];
            assert(holds(paths[k].1, e, pool[e]));
        }
    }
    assert(a =~= b);
}

} // verus!
