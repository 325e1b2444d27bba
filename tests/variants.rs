use gfa2vcf::assign::OffsetPath;
use gfa2vcf::bubbles::{bubble_pool, load_ultrabubbles, parse_bubble_line, sort_bubbles, DuplicateEntry, LoadError};
use gfa2vcf::graph::{build_segment_index, path_length, path_offsets, MissingSegment, Orientation, SegmentIndex, Step};
use gfa2vcf::pipeline::{check_path_count, collect_results, extract_all, ConfigurationError};
use gfa2vcf::serialize::{header_lines, record_line, sorted_lines};
use gfa2vcf::variants::{bubble_variant, reverse_complement, VariantRecord};

fn fwd(id: u64) -> Step {
    Step { id, orient: Orientation::Forward }
}

fn rev(id: u64) -> Step {
    Step { id, orient: Orientation::Backward }
}

fn index(segs: &[(u64, &str)]) -> SegmentIndex {
    build_segment_index(segs.iter().map(|(i, s)| (*i, s.as_bytes().to_vec())).collect())
}

fn path(idx: &SegmentIndex, name: &str, steps: Vec<Step>) -> OffsetPath {
    OffsetPath { name: name.as_bytes().to_vec(), steps: path_offsets(idx, &steps).unwrap() }
}

fn two_path_graph() -> (SegmentIndex, Vec<OffsetPath>) {
    let idx = index(&[(1, "A"), (2, "AA"), (3, "AT"), (4, "A")]);
    let p1 = path(&idx, "P1", vec![fwd(1), fwd(2), fwd(4)]);
    let p2 = path(&idx, "P2", vec![fwd(1), fwd(3), fwd(4)]);
    (idx, vec![p1, p2])
}

#[test]
fn offsets_are_running_totals() {
    let idx = index(&[(1, "ACG"), (2, "T"), (3, "GG")]);
    let r = path_offsets(&idx, &vec![fwd(1), rev(2), fwd(3), fwd(1)]).unwrap();
    let offs: Vec<u64> = r.iter().map(|s| s.offset).collect();
    assert_eq!(offs, vec![0, 3, 4, 6]);
    assert_eq!(r[1].orient, Orientation::Backward);
}

#[test]
fn offsets_missing_segment() {
    let idx = index(&[(1, "ACG")]);
    let r = path_offsets(&idx, &vec![fwd(1), fwd(7)]);
    assert_eq!(r.err(), Some(MissingSegment { id: 7 }));
}

#[test]
fn bubble_line_parses_two_ids() {
    assert_eq!(parse_bubble_line(&b"12\t345".to_vec()), Some((12, 345)));
    assert_eq!(parse_bubble_line(&b"7\t8\textra".to_vec()), Some((7, 8)));
    assert_eq!(parse_bubble_line(&b"18446744073709551615\t0".to_vec()), Some((u64::MAX, 0)));
    assert_eq!(parse_bubble_line(&b"18446744073709551616\t0".to_vec()), None);
    assert_eq!(parse_bubble_line(&b"12 345".to_vec()), None);
    assert_eq!(parse_bubble_line(&b"12\t".to_vec()), None);
    assert_eq!(parse_bubble_line(&b"x\t3".to_vec()), None);
}

#[test]
fn malformed_ultrabubble_file_is_a_load_error() {
    let lines = vec![b"1\t4".to_vec(), b"2\tfoo".to_vec(), b"5\t6".to_vec()];
    assert_eq!(load_ultrabubbles(&lines), Err(LoadError { line: 1 }));
    let good = vec![b"1\t4".to_vec(), b"5\t6".to_vec()];
    assert_eq!(load_ultrabubbles(&good), Ok(vec![(1, 4), (5, 6)]));
}

#[test]
fn duplicate_entries_are_refused() {
    assert_eq!(bubble_pool(&vec![(1, 4), (2, 5), (1, 6)]).err(), Some(DuplicateEntry { entry: 1 }));
    let m = bubble_pool(&vec![(1, 4), (2, 5)]).unwrap();
    assert_eq!(m.len(), 2);
    assert_eq!(m.get(&2), Some(&5));
}

#[test]
fn reverse_complement_of_bases() {
    assert_eq!(reverse_complement(&b"ACGTN".to_vec()), b"NACGT".to_vec());
    assert_eq!(reverse_complement(&b"aacg".to_vec()), b"cgtt".to_vec());
}

#[test]
fn identical_paths_give_no_record() {
    let idx = index(&[(1, "A"), (2, "AA"), (4, "A")]);
    let p1 = path(&idx, "P1", vec![fwd(1), fwd(2), fwd(4)]);
    let p2 = path(&idx, "P2", vec![fwd(1), fwd(2), fwd(4)]);
    let r = bubble_variant(&idx, &vec![p1, p2], &vec![], false, 1, 4);
    assert!(matches!(r, Ok(None)));
}

#[test]
fn one_base_difference_gives_one_record() {
    let (idx, paths) = two_path_graph();
    let refs = vec![b"P1".to_vec()];
    let rec = bubble_variant(&idx, &paths, &refs, false, 1, 4).unwrap().unwrap();
    assert_eq!(rec.path, b"P1".to_vec());
    assert_eq!(rec.pos, 0);
    assert_eq!(rec.reference, b"AA".to_vec());
    assert_eq!(rec.alts, vec![b"AT".to_vec()]);
    assert_eq!(rec.genotypes, vec![Some(0), Some(1)]);
    assert_eq!(record_line(&rec), b"P1\t0\tAA\tAT\t0\t1".to_vec());
}

#[test]
fn reference_name_picks_the_reference() {
    let (idx, paths) = two_path_graph();
    let refs = vec![b"P2".to_vec()];
    let rec = bubble_variant(&idx, &paths, &refs, false, 1, 4).unwrap().unwrap();
    assert_eq!(rec.path, b"P2".to_vec());
    assert_eq!(rec.reference, b"AT".to_vec());
    assert_eq!(rec.alts, vec![b"AA".to_vec()]);
    assert_eq!(rec.genotypes, vec![Some(1), Some(0)]);
}

#[test]
fn anchor_is_the_entry_offset() {
    let idx = index(&[(9, "GGG"), (1, "A"), (2, "AA"), (3, "AT"), (4, "A")]);
    let p1 = path(&idx, "P1", vec![fwd(9), fwd(1), fwd(2), fwd(4)]);
    let p2 = path(&idx, "P2", vec![fwd(1), fwd(3), fwd(4)]);
    let rec = bubble_variant(&idx, &vec![p1, p2], &vec![], false, 1, 4).unwrap().unwrap();
    assert_eq!(rec.pos, 3);
}

#[test]
fn inverted_paths_are_ignored_when_asked() {
    let idx = index(&[(1, "A"), (2, "AC"), (4, "A")]);
    let p1 = path(&idx, "P1", vec![fwd(1), fwd(2), fwd(4)]);
    let p2 = path(&idx, "P2", vec![rev(4), rev(2), rev(1)]);
    let paths = vec![p1, p2];
    assert!(matches!(bubble_variant(&idx, &paths, &vec![], true, 1, 4), Ok(None)));
    // read entry to exit, the inverted path spells the same allele
    assert!(matches!(bubble_variant(&idx, &paths, &vec![], false, 1, 4), Ok(None)));
}

#[test]
fn inverted_path_with_other_allele() {
    let idx = index(&[(1, "A"), (2, "AC"), (3, "GG"), (4, "A")]);
    let p1 = path(&idx, "P1", vec![fwd(1), fwd(2), fwd(4)]);
    let p2 = path(&idx, "P2", vec![fwd(4), fwd(3), fwd(1)]);
    let paths = vec![p1, p2];
    let rec = bubble_variant(&idx, &paths, &vec![], false, 1, 4).unwrap().unwrap();
    assert_eq!(rec.alts, vec![b"CC".to_vec()]);
    assert!(matches!(bubble_variant(&idx, &paths, &vec![], true, 1, 4), Ok(None)));
}

#[test]
fn missing_entry_is_reported_and_others_go_on() {
    let (idx, paths) = two_path_graph();
    let bubbles = vec![(99, 4), (1, 4)];
    let results = extract_all(&idx, &paths, &vec![], false, &bubbles);
    assert!(matches!(results[0], Err(MissingSegment { id: 99 })));
    let (recs, skipped) = collect_results(results, &bubbles);
    assert_eq!(skipped, vec![(99, 4)]);
    assert_eq!(recs.len(), 1);
    assert_eq!(recs[0].reference, b"AA".to_vec());
}

#[test]
fn too_few_paths() {
    assert_eq!(check_path_count(1), Err(ConfigurationError::TooFewPaths));
    assert_eq!(check_path_count(2), Ok(()));
}

fn rec(path: &str, pos: u64, reference: &str, alt: &str) -> VariantRecord {
    VariantRecord {
        path: path.as_bytes().to_vec(),
        pos,
        reference: reference.as_bytes().to_vec(),
        alts: vec![alt.as_bytes().to_vec()],
        genotypes: vec![Some(0), None, Some(1)],
    }
}

fn all_records() -> Vec<VariantRecord> {
    vec![rec("b", 5, "A", "T"), rec("a", 10, "C", "G"), rec("a", 9, "C", "G"), rec("a", 9, "C", "A")]
}

#[test]
fn lines_are_sorted_by_path_position_and_line() {
    let lines = sorted_lines(&all_records());
    let expect: Vec<Vec<u8>> = vec![
        b"a\t9\tC\tA\t0\t.\t1".to_vec(),
        b"a\t9\tC\tG\t0\t.\t1".to_vec(),
        b"a\t10\tC\tG\t0\t.\t1".to_vec(),
        b"b\t5\tA\tT\t0\t.\t1".to_vec(),
    ];
    assert_eq!(lines, expect);
}

#[test]
fn lines_do_not_depend_on_record_order() {
    let mut other = all_records();
    other.reverse();
    other.swap(0, 2);
    assert_eq!(sorted_lines(&all_records()), sorted_lines(&other));
}

#[test]
fn header_names_source_and_paths() {
    let h = header_lines(&b"g.gfa".to_vec(), &vec![b"P1".to_vec(), b"P2".to_vec()]);
    assert_eq!(h[0], b"##source=g.gfa".to_vec());
    assert_eq!(h[1], b"#PATH\tPOS\tREF\tALT\tP1\tP2".to_vec());
}

#[test]
fn bubbles_sort_by_entry_then_exit() {
    assert_eq!(sort_bubbles(vec![(5, 1), (2, 9), (5, 0), (1, 1)]), vec![(1, 1), (2, 9), (5, 0), (5, 1)]);
    assert_eq!(sort_bubbles(vec![]), vec![]);
}

#[test]
fn path_length_sums_segments() {
    let idx = index(&[(1, "ACG"), (2, "T")]);
    assert_eq!(path_length(&idx, &vec![fwd(1), fwd(2), rev(1)]), Some(7));
    assert_eq!(path_length(&idx, &vec![]), Some(0));
}

#[test]
fn first_occurrence_of_a_segment_id_wins() {
    let idx = build_segment_index(vec![(1, b"AC".to_vec()), (1, b"G".to_vec()), (2, b"T".to_vec())]);
    assert_eq!(idx.get(1), Some(&b"AC".to_vec()));
    assert_eq!(idx.get(3), None);
}

#[test]
fn alternates_in_order_of_first_carrier() {
    let idx = index(&[(1, "A"), (2, "C"), (3, "G"), (5, "T"), (4, "A")]);
    let paths = vec![
        path(&idx, "P1", vec![fwd(1), fwd(2), fwd(4)]),
        path(&idx, "P2", vec![fwd(1), fwd(3), fwd(4)]),
        path(&idx, "P3", vec![fwd(1), fwd(5), fwd(4)]),
        path(&idx, "P4", vec![fwd(1), fwd(3), fwd(4)]),
        path(&idx, "P5", vec![fwd(1), fwd(2)]),
    ];
    let rec = bubble_variant(&idx, &paths, &vec![], false, 1, 4).unwrap().unwrap();
    assert_eq!(rec.alts, vec![b"G".to_vec(), b"T".to_vec()]);
    assert_eq!(rec.genotypes, vec![Some(0), Some(1), Some(2), Some(1), None]);
    assert_eq!(record_line(&rec), b"P1\t0\tC\tG,T\t0\t1\t2\t1\t.".to_vec());
}

#[test]
fn boundary_orientation_mismatch_is_inverted() {
    let idx = index(&[(1, "A"), (2, "AC"), (3, "GG"), (4, "A")]);
    let p1 = path(&idx, "P1", vec![fwd(1), fwd(2), fwd(4)]);
    let p2 = path(&idx, "P2", vec![rev(1), fwd(3), fwd(4)]);
    let paths = vec![p1, p2];
    let rec = bubble_variant(&idx, &paths, &vec![], false, 1, 4).unwrap().unwrap();
    assert_eq!(rec.alts, vec![b"GG".to_vec()]);
    assert!(matches!(bubble_variant(&idx, &paths, &vec![], true, 1, 4), Ok(None)));
}

#[test]
fn failing_bubble_does_not_change_other_lines() {
    let (idx, paths) = two_path_graph();
    let with_bad = vec![(1, 4), (99, 4)];
    let without = vec![(1, 4)];
    let (recs_a, skipped_a) = collect_results(extract_all(&idx, &paths, &vec![], false, &with_bad), &with_bad);
    let (recs_b, skipped_b) = collect_results(extract_all(&idx, &paths, &vec![], false, &without), &without);
    assert_eq!(skipped_a, vec![(99, 4)]);
    assert!(skipped_b.is_empty());
    assert_eq!(sorted_lines(&recs_a), sorted_lines(&recs_b));
}
