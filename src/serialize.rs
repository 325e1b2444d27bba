//! Rendering variant records as tab-separated lines, in a fixed order.
use vstd::prelude::*;
use crate::order::{Key, bytes_less, key_le, key_lt, sorted, lemma_key_total, lemma_key_trans};
use crate::variants::{VariantRecord, append_bytes};
use crate::assign::copy_bytes;

verus! {

broadcast use vstd::seq_lib::group_to_multiset_ensures;

/// Decimal digits of a number, most significant first.
pub open spec fn digits(n: nat) -> Seq<u8>
    decreases n,
{
    if n < 10 {
        seq![(48 + n) as u8]
    } else {
        digits(n / 10).push((48 + n % 10) as u8)
    }
}

/// Alleles joined by commas.
pub open spec fn join_alts(alts: Seq<Seq<u8>>) -> Seq<u8>
    decreases alts.len(),
{
    if alts.len() == 0 {
        seq![]
    } else if alts.len() == 1 {
        alts[0]
    } else {
        join_alts(alts.drop_last()) + seq![44u8] + alts.last()
    }
}

/// One field per path: `.` where the path is not compared, else the index
/// of its allele; each field is preceded by a tab.
pub open spec fn gt_fields(gs: Seq<Option<usize>>) -> Seq<u8>
    decreases gs.len(),
{
    if gs.len() == 0 {
        seq![]
    } else {
        gt_fields(gs.drop_last()) + seq![9u8] + match gs.last() {
            None => seq![46u8],
            Some(k) => digits(k as nat),
        }
    }
}

pub open spec fn alts_view(alts: Seq<Vec<u8>>) -> Seq<Seq<u8>> {
    Seq::new(alts.len(), |i: int| alts[i]@)
}

/// The line of a record: path, position, reference allele, alternate
/// alleles and the per-path fields, separated by tabs.
pub open spec fn line_of(rec: VariantRecord) -> Seq<u8> {
    rec.path@ + seq![9u8] + digits(rec.pos as nat) + seq![9u8] + rec.reference@ + seq![9u8]
        + join_alts(alts_view(rec.alts@)) + gt_fields(rec.genotypes@)
}

/// The sort key of a record.
pub open spec fn key_of(rec: VariantRecord) -> Key {
    (rec.path@, rec.pos, line_of(rec))
}

pub open spec fn keys_of(recs: Seq<VariantRecord>) -> Seq<Key> {
    Seq::new(recs.len(), |i: int| key_of(recs[i]))
}

pub open spec fn item_view(items: Seq<(Vec<u8>, u64, Vec<u8>)>) -> Seq<Key> {
    Seq::new(items.len(), |i: int| (items[i].0@, items[i].1, items[i].2@))
}

/// `lines` are the lines of the records, sorted by their keys.
pub open spec fn sorted_render(recs: Seq<VariantRecord>, lines: Seq<Vec<u8>>) -> bool {
    exists|ks: Seq<Key>|
        sorted(ks) && ks.to_multiset() == keys_of(recs).to_multiset() && ks.len() == lines.len()
            && forall|i: int| 0 <= i < lines.len() ==> (#[trigger] lines[i])@ == ks[i].2
}

fn push_decimal(out: &mut Vec<u8>, n: u64)
    ensures
        final(out)@ == old(out)@ + digits(n as nat),
    decreases n,
{
    if n >= 10 {
        push_decimal(out, n / 10);
    }
    out.push((48 + n % 10) as u8);
    assert(final(out)@ =~= old(out)@ + digits(n as nat));
}

/// The line of a record.
pub fn record_line(rec: &VariantRecord) -> (r: Vec<u8>)
    ensures
        r@ == line_of(*rec),
{
    let mut out = copy_bytes(&rec.path);
    out.push(9);
    push_decimal(&mut out, rec.pos);
    out.push(9);
    let mut i: usize = 0;
    while i < rec.reference.len()
        invariant
            i <= rec.reference@.len(),
            out@ == rec.path@ + seq![9u8] + digits(rec.pos as nat) + seq![9u8] + rec.reference@.subrange(0, i as int),
        decreases rec.reference@.len() - i,
    {
        out.push(rec.reference[i]);
        i = i + 1;
        assert(out@ =~= rec.path@ + seq![9u8] + digits(rec.pos as nat) + seq![9u8] + rec.reference@.subrange(0, i as int));
    }
    assert(rec.reference@.subrange(0, i as int) =~= rec.reference@);
    out.push(9);
    let ghost head = out@;
    let mut k: usize = 0;
    while k < rec.alts.len()
        invariant
            k <= rec.alts@.len(),
            out@ == head + join_alts(alts_view(rec.alts@).subrange(0, k as int)),
        decreases rec.alts@.len() - k,
    {
        let ghost prev = out@;
        if k > 0 {
            out.push(44);
        }
        let a = &rec.alts[k];
        let mut m: usize = 0;
        let ghost mid = out@;
        while m < a.len()
            invariant
                m <= a@.len(),
                out@ == mid + a@.subrange(0, m as int),
            decreases a@.len() - m,
        {
            out.push(a[m]);
            m = m + 1;
            assert(out@ =~= mid + a@.subrange(0, m as int));
        }
        assert(a@.subrange(0, m as int) =~= a@);
        assert(alts_view(rec.alts@).subrange(0, k + 1).drop_last() =~= alts_view(rec.alts@).subrange(0, k as int));
        if k == 0 {
            assert(out@ =~= head + join_alts(alts_view(rec.alts@).subrange(0, k + 1)));
        } else {
            assert(out@ =~= head + join_alts(alts_view(rec.alts@).subrange(0, k + 1)));
        }
        k = k + 1;
    }
    assert(alts_view(rec.alts@).subrange(0, k as int) =~= alts_view(rec.alts@));
    let ghost head2 = out@;
    let mut j: usize = 0;
    while j < rec.genotypes.len()
        invariant
            j <= rec.genotypes@.len(),
            out@ == head2 + gt_fields(rec.genotypes@.subrange(0, j as int)),
        decreases rec.genotypes@.len() - j,
    {
        out.push(9);
        match rec.genotypes[j] {
            None => {
                out.push(46);
            },
            Some(g) => {
                push_decimal(&mut out, g as u64);
            },
        }
        assert(rec.genotypes@.subrange(0, j + 1).drop_last() =~= rec.genotypes@.subrange(0, j as int));
        j = j + 1;
        assert(out@ =~= head2 + gt_fields(rec.genotypes@.subrange(0, j as int)));
    }
    assert(rec.genotypes@.subrange(0, j as int) =~= rec.genotypes@);
    assert(out@ =~= line_of(*rec));
    out
}

fn key_less(x: &(Vec<u8>, u64, Vec<u8>), y: &(Vec<u8>, u64, Vec<u8>)) -> (r: bool)
    ensures
        r == key_lt((x.0@, x.1, x.2@), (y.0@, y.1, y.2@)),
{
    if bytes_less(&x.0, &y.0) {
        return true;
    }
    if !crate::variants::bytes_eq(&x.0, &y.0) {
        return false;
    }
    if x.1 != y.1 {
        return x.1 < y.1;
    }
    bytes_less(&x.2, &y.2)
}

/// Sorts keyed lines by their keys.
pub fn sort_items(items: Vec<(Vec<u8>, u64, Vec<u8>)>) -> (r: Vec<(Vec<u8>, u64, Vec<u8>)>)
    ensures
        sorted(item_view(r@)),
        item_view(r@).to_multiset() == item_view(items@).to_multiset(),
{
    let mut rest = items;
    let mut out: Vec<(Vec<u8>, u64, Vec<u8>)> = Vec::new();
    let ghost orig = item_view(rest@);
    while rest.len() > 0
        invariant
            sorted(item_view(out@)),
            item_view(out@).to_multiset().add(item_view(rest@).to_multiset()) == orig.to_multiset(),
        decreases rest@.len(),
    {
        let ghost before = rest@;
        let it = rest.pop().unwrap();
        proof {
            assert(item_view(rest@) =~= item_view(before).remove(before.len() - 1));
            vstd::seq_lib::to_multiset_remove(item_view(before), before.len() - 1);
        }
        let ghost x: Key = (it.0@, it.1, it.2@);
        let mut p: usize = 0;
        while p < out.len() && !key_less(&it, &out[p])
            invariant
                p <= out@.len(),
                x == (it.0@, it.1, it.2@),
                forall|q: int| 0 <= q < p ==> key_le(#[trigger] item_view(out@)[q], x),
            decreases out@.len() - p,
        {
            proof {
                lemma_key_total(x, item_view(out@)[p as int]);
            }
            p = p + 1;
        }
        let ghost old_out = item_view(out@);
        out.insert(p, it);
        proof {
            assert(item_view(out@) =~= old_out.insert(p as int, x));
            vstd::seq_lib::to_multiset_insert(old_out, p as int, x);
            let s = item_view(out@);
            assert forall|i: int, j: int| 0 <= i < j < s.len() implies key_le(s[i], s[j]) by {
                if j < p {
                    assert(key_le(old_out[i], old_out[j]));
                } else if j == p {
                    assert(key_le(old_out[i], x));
                } else if i == p {
                    assert(key_lt(x, old_out[p as int]));
                    if j - 1 > p {
                        assert(key_le(old_out[p as int], old_out[j - 1]));
                        lemma_key_trans(x, old_out[p as int], old_out[j - 1]);
                    }
                } else if i < p {
                    assert(key_le(old_out[i], x));
                    assert(key_lt(x, old_out[p as int]));
                    if j - 1 > p {
                        assert(key_le(old_out[p as int], old_out[j - 1]));
                        lemma_key_trans(x, old_out[p as int], old_out[j - 1]);
                    }
                    lemma_key_trans(old_out[i], x, old_out[j - 1]);
                } else {
                    assert(key_le(old_out[i - 1], old_out[j - 1]));
                }
            }
        }
    }
    proof {
        assert(item_view(rest@) =~= Seq::<Key>::empty());
        assert(item_view(rest@).to_multiset() =~= vstd::multiset::Multiset::empty());
    }
    out
}

/// The lines of the records, sorted by reference path name, position and
/// then the whole line, so that the same records in any order give the
/// same lines.
pub fn sorted_lines(recs: &Vec<VariantRecord>) -> (r: Vec<Vec<u8>>)
    ensures
        sorted_render(recs@, r@),
{
    let mut items: Vec<(Vec<u8>, u64, Vec<u8>)> = Vec::new();
    let mut i: usize = 0;
    while i < recs.len()
        invariant
            i <= recs@.len(),
            item_view(items@) == keys_of(recs@).subrange(0, i as int),
        decreases recs@.len() - i,
    {
        let rec = &recs[i];
        let name = copy_bytes(&rec.path);
        let line = record_line(rec);
        assert(key_of(recs@[i as int]) == (name@, rec.pos, line@));
        let ghost before = items@;
        items.push((name, rec.pos, line));
        assert(item_view(items@) =~= item_view(before).push(key_of(recs@[i as int])));
        i = i + 1;
        assert(item_view(items@) =~= keys_of(recs@).subrange(0, i as int));
    }
    assert(keys_of(recs@).subrange(0, i as int) =~= keys_of(recs@));
    let sorted_items = sort_items(items);
    let mut out: Vec<Vec<u8>> = Vec::new();
    let mut j: usize = 0;
    while j < sorted_items.len()
        invariant
            j <= sorted_items@.len(),
            out@.len() == j,
            forall|k: int| 0 <= k < j ==> (#[trigger] out@[k])@ == item_view(sorted_items@)[k].2,
        decreases sorted_items@.len() - j,
    {
        out.push(copy_bytes(&sorted_items[j].2));
        j = j + 1;
    }
    assert(sorted_render(recs@, out@)) by {
        let ks = item_view(sorted_items@);
        assert(forall|k: int| 0 <= k < out@.len() ==> (#[trigger] out@[k])@ == ks[k].2);
    }
    out
}

} // verus!

verus! {

proof fn lemma_sorted_unique(a: Seq<Key>, b: Seq<Key>)
    requires
        sorted(a),
        sorted(b),
        a.to_multiset() == b.to_multiset(),
    ensures
        a == b,
    decreases a.len(),
{
    vstd::seq_lib::to_multiset_len(a);
    vstd::seq_lib::to_multiset_len(b);
    if a.len() == 0 {
        assert(b.to_multiset().len() == 0);
        assert(b =~= a);
    } else {
        assert(b.len() == a.len());
        assert(a.to_multiset().count(a[0]) > 0);
        assert(b.contains(a[0]));
        let j = choose|j: int| 0 <= j < b.len() && b[j] == a[0];
        assert(b.to_multiset().count(b[0]) > 0);
        assert(a.contains(b[0]));
        let i = choose|i: int| 0 <= i < a.len() && a[i] == b[0];
        if j > 0 {
            assert(key_le(b[0], b[j]));
        }
        if i > 0 {
            assert(key_le(a[0], a[i]));
        }
        lemma_key_total(a[0], b[0]);
        assert(a[0] == b[0]);
        vstd::seq_lib::to_multiset_remove(a, 0);
        vstd::seq_lib::to_multiset_remove(b, 0);
        assert(a.remove(0) =~= a.drop_first());
        assert(b.remove(0) =~= b.drop_first());
        assert(sorted(a.drop_first())) by {
            assert forall|p: int, q: int| 0 <= p < q < a.len() - 1 implies key_le(a.drop_first()[p], a.drop_first()[q]) by {
                assert(key_le(a[p + 1], a[q + 1]));
            }
        }
        assert(sorted(b.drop_first())) by {
            assert forall|p: int, q: int| 0 <= p < q < b.len() - 1 implies key_le(b.drop_first()[p], b.drop_first()[q]) by {
                assert(key_le(b[p + 1], b[q + 1]));
            }
        }
        lemma_sorted_unique(a.drop_first(), b.drop_first());
        assert forall|i: int| 0 <= i < a.len() implies a[i] == b[i] by {
            if i > 0 {
                assert(a[i] == a.drop_first()[i - 1]);
                assert(b[i] == b.drop_first()[i - 1]);
            }
        }
        assert(a =~= b);
    }
}

/// The written lines depend only on the records, not on the order in which
/// they were produced: two lists holding the same records are written as
/// the same lines.
pub proof fn law_lines_order_independent(
    a: Seq<VariantRecord>,
    b: Seq<VariantRecord>,
    la: Seq<Vec<u8>>,
    lb: Seq<Vec<u8>>,
)
    requires
        keys_of(a).to_multiset() == keys_of(b).to_multiset(),
        sorted_render(a, la),
        sorted_render(b, lb),
    ensures
        la.len() == lb.len(),
        forall|i: int| 0 <= i < la.len() ==> la[i]@ == lb[i]@,
{
    let ka = choose|ks: Seq<Key>|
        sorted(ks) && ks.to_multiset() == keys_of(a).to_multiset() && ks.len() == la.len()
            && forall|i: int| 0 <= i < la.len() ==> (#[trigger] la[i])@ == ks[i].2;
    let kb = choose|ks: Seq<Key>|
        sorted(ks) && ks.to_multiset() == keys_of(b).to_multiset() && ks.len() == lb.len()
            && forall|i: int| 0 <= i < lb.len() ==> (#[trigger] lb[i])@ == ks[i].2;
    lemma_sorted_unique(ka, kb);
    assert forall|i: int| 0 <= i < la.len() implies la[i]@ == lb[i]@ by {
        assert(la[i]@ == ka[i].2);
        assert(lb[i]@ == kb[i].2);
    }
}

} // verus!

verus! {

/// The header: a line naming the source graph, then the column line, with
/// one column per path.
pub open spec fn header_of(source: Seq<u8>, names: Seq<Vec<u8>>) -> Seq<Seq<u8>> {
    seq![
        source_prefix() + source,
        column_prefix() + name_columns(names),
    ]
}

pub open spec fn source_prefix() -> Seq<u8> {
    seq![35u8, 35, 115, 111, 117, 114, 99, 101, 61]
}

pub open spec fn column_prefix() -> Seq<u8> {
    seq![35u8, 80, 65, 84, 72, 9, 80, 79, 83, 9, 82, 69, 70, 9, 65, 76, 84]
}

/// Each name preceded by a tab.
pub open spec fn name_columns(names: Seq<Vec<u8>>) -> Seq<u8>
    decreases names.len(),
{
    if names.len() == 0 {
        seq![]
    } else {
        name_columns(names.drop_last()) + seq![9u8] + names.last()@
    }
}

/// The header lines: `##source=` and the graph's name, then `#PATH`,
/// `POS`, `REF`, `ALT` and the path names, tab-separated.
pub fn header_lines(source: &Vec<u8>, names: &Vec<Vec<u8>>) -> (r: Vec<Vec<u8>>)
    ensures
        r@.len() == 2,
        r@[0]@ == header_of(source@, names@)[0],
        r@[1]@ == header_of(source@, names@)[1],
{
    let mut first: Vec<u8> = vec![35, 35, 115, 111, 117, 114, 99, 101, 61];
    assert(first@ =~= source_prefix());
    append_bytes(&mut first, source);
    let mut second: Vec<u8> = vec![35, 80, 65, 84, 72, 9, 80, 79, 83, 9, 82, 69, 70, 9, 65, 76, 84];
    assert(second@ =~= column_prefix());
    let mut i: usize = 0;
    while i < names.len()
        invariant
            i <= names@.len(),
            second@ == column_prefix() + name_columns(names@.subrange(0, i as int)),
        decreases names@.len() - i,
    {
        second.push(9);
        append_bytes(&mut second, &names[i]);
        assert(names@.subrange(0, i + 1).drop_last() =~= names@.subrange(0, i as int));
        i = i + 1;
        assert(second@ =~= column_prefix() + name_columns(names@.subrange(0, i as int)));
    }
    assert(names@.subrange(0, i as int) =~= names@);
    let mut r: Vec<Vec<u8>> = Vec::new();
    r.push(first);
    r.push(second);
    r
}

} // verus!
