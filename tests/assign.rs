use gfa2vcf::assign::{assign_bubbles, OffsetPath};
use gfa2vcf::bubbles::bubble_pool;
use gfa2vcf::graph::{OffsetStep, Orientation};

fn p(name: &str, ids: &[u64]) -> OffsetPath {
    OffsetPath {
        name: name.as_bytes().to_vec(),
        steps: ids
            .iter()
            .enumerate()
            .map(|(i, id)| OffsetStep { id: *id, orient: Orientation::Forward, offset: i as u64 })
            .collect(),
    }
}

#[test]
fn first_path_holding_both_ends_owns_the_bubble() {
    let pool = bubble_pool(&vec![(1, 3), (5, 7), (20, 21)]).unwrap();
    let paths = vec![p("x", &[1, 2, 3]), p("y", &[1, 2, 3, 5, 6, 7]), p("z", &[20])];
    let (recs, rem) = assign_bubbles(&paths, pool);
    assert_eq!(recs.len(), 2);
    assert_eq!(recs[0].name, b"x".to_vec());
    assert_eq!(recs[0].bubbles, vec![(1, 3)]);
    assert_eq!(recs[0].remaining, 2);
    assert_eq!(recs[1].name, b"y".to_vec());
    assert_eq!(recs[1].bubbles, vec![(5, 7)]);
    assert_eq!(recs[1].remaining, 1);
    assert_eq!(recs[0].index, 0);
    assert_eq!(recs[1].index, 1);
    assert_eq!(rem.len(), 1);
    assert_eq!(rem.get(&20), Some(&21));
}

#[test]
fn entry_without_exit_stays_in_pool() {
    let pool = bubble_pool(&vec![(1, 3)]).unwrap();
    let paths = vec![p("x", &[1, 2]), p("y", &[3, 1])];
    let (recs, rem) = assign_bubbles(&paths, pool);
    assert_eq!(recs.len(), 1);
    assert_eq!(recs[0].name, b"y".to_vec());
    assert!(rem.is_empty());
}

#[test]
fn scanning_stops_once_all_are_owned() {
    let pool = bubble_pool(&vec![(1, 3)]).unwrap();
    let paths = vec![p("x", &[1, 3]), p("y", &[1, 3])];
    let (recs, rem) = assign_bubbles(&paths, pool);
    assert_eq!(recs.len(), 1);
    assert!(rem.is_empty());
}

#[test]
fn remaining_is_the_same_in_any_path_order() {
    let bubbles = vec![(1, 3), (5, 7), (20, 21), (8, 9)];
    let a = vec![p("x", &[1, 2, 3]), p("y", &[5, 6, 7, 8]), p("z", &[9, 1, 3])];
    let b = vec![p("z", &[9, 1, 3]), p("x", &[1, 2, 3]), p("y", &[5, 6, 7, 8])];
    let (_, ra) = assign_bubbles(&a, bubble_pool(&bubbles).unwrap());
    let (rb_recs, rb) = assign_bubbles(&b, bubble_pool(&bubbles).unwrap());
    assert_eq!(ra, rb);
    assert_eq!(ra.len(), 2);
    assert_eq!(rb_recs[0].name, b"z".to_vec());
}

#[test]
fn every_bubble_assigned_or_remaining_once() {
    let bubbles = vec![(1, 3), (5, 7), (20, 21), (8, 9)];
    let paths = vec![p("x", &[1, 2, 3, 3]), p("y", &[5, 6, 7, 8]), p("z", &[9, 1, 3, 8])];
    let (recs, rem) = assign_bubbles(&paths, bubble_pool(&bubbles).unwrap());
    for b in bubbles.iter() {
        let owners = recs.iter().filter(|r| r.bubbles.contains(b)).count();
        let left = rem.get(&b.0) == Some(&b.1);
        assert!(owners == 1 && !left || owners == 0 && left);
    }
}

#[test]
fn repeated_visits_list_a_bubble_once() {
    let pool = bubble_pool(&vec![(1, 3)]).unwrap();
    let paths = vec![p("x", &[1, 3, 2, 3, 1])];
    let (recs, rem) = assign_bubbles(&paths, pool);
    assert_eq!(recs[0].bubbles, vec![(1, 3)]);
    assert_eq!(recs[0].remaining, 0);
    assert!(rem.is_empty());
}

#[test]
fn record_carries_the_path_index() {
    let pool = bubble_pool(&vec![(5, 7)]).unwrap();
    let paths = vec![p("x", &[1, 2]), p("y", &[9]), p("z", &[5, 7])];
    let (recs, _) = assign_bubbles(&paths, pool);
    assert_eq!(recs.len(), 1);
    assert_eq!(recs[0].index, 2);
}
