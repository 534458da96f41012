use cctag::edge::collection::{EdgePointCollection, NO_EDGE};
use cctag::edge::from_canny::edges_points_from_canny;
use cctag::edge::point::EdgePoint;
use cctag::image::Plane;
use std::collections::VecDeque;
use cctag::vote::linking::children_of;
use cctag::vote::vote::{sort_seeds, tally_votes};
use cctag::detection::from_edges::loop_two_b_label;

#[test]
fn edge_point_new_truncates_to_i16() {
    let p = EdgePoint::new(70000, -3, 5, -6);
    assert_eq!(p, EdgePoint { x: 70000i32 as i16, y: -3, dx: 5, dy: -6 });
}

fn collection_3x2() -> EdgePointCollection {
    let mut edges = Plane::filled(3, 2, 0u8);
    edges.set(1, 0, 255);
    edges.set(0, 1, 255);
    edges.set(2, 1, 255);
    let dx = Plane::from_vec(3, 2, vec![1i16, 2, 3, 4, 5, 6]);
    let dy = Plane::from_vec(3, 2, vec![-1i16, -2, -3, -4, -5, -6]);
    let mut c = EdgePointCollection::new(3, 2, 10, 10);
    edges_points_from_canny(&mut c, &edges, &dx, &dy);
    c
}

#[test]
fn edges_from_canny_in_raster_order() {
    let c = collection_3x2();
    assert_eq!(c.len(), 3);
    assert!(!c.is_empty());
    assert_eq!(*c.point(0), EdgePoint { x: 1, y: 0, dx: 2, dy: -2 });
    assert_eq!(*c.point(1), EdgePoint { x: 0, y: 1, dx: 4, dy: -4 });
    assert_eq!(*c.point(2), EdgePoint { x: 2, y: 1, dx: 6, dy: -6 });
    assert_eq!(c.at(1, 0), 0);
    assert_eq!(c.at(0, 1), 1);
    assert_eq!(c.at(2, 1), 2);
    assert_eq!(c.at(0, 0), NO_EDGE);
    assert_eq!(c.at(-1, 0), NO_EDGE);
    assert_eq!(c.at(3, 0), NO_EDGE);
    assert_eq!(c.before(0), NO_EDGE);
    assert_eq!(c.after(2), NO_EDGE);
    assert_eq!(c.is_max, vec![-1, -1, -1]);
    assert!(c.in_bounds(9, 9));
    assert!(!c.in_bounds(10, 0));
    assert!(!c.in_bounds(0, -1));
}

#[test]
fn processed_flags() {
    let mut c = collection_3x2();
    for i in 0..3 {
        assert!(!c.test_processed_in(i));
        assert!(!c.test_processed_aux(i));
    }
    c.set_processed_in(1, true);
    assert!(c.test_processed_in(1));
    assert!(!c.test_processed_in(0) && !c.test_processed_in(2));
    assert!(!c.test_processed_aux(1));
    c.set_processed_aux(2, true);
    c.set_processed_in(1, false);
    assert!(!c.test_processed_in(1));
    assert!(c.test_processed_aux(2));
}

#[test]
fn flags_beyond_first_word() {
    let mut c = EdgePointCollection::new(200, 1, 200, 1);
    for x in 0..130 {
        c.add_point(x, 0, 0, 0);
    }
    c.finish_points();
    c.set_processed_in(129, true);
    c.set_processed_in(64, true);
    assert!(c.test_processed_in(129));
    assert!(c.test_processed_in(64));
    assert!(!c.test_processed_in(63));
    assert!(!c.test_processed_in(128));
}

#[test]
fn voter_lists_keep_vote_order() {
    let mut c = collection_3x2();
    c.create_voter_lists(&[(2, 0), (0, 1), (2, 1), (2, 2), (0, 0)]);
    assert_eq!(c.voters(0), &[1, 0]);
    assert_eq!(c.voters(1), &[] as &[i32]);
    assert_eq!(c.voters(2), &[0, 1, 2]);
    assert_eq!(c.voters_size(2), 3);
    assert_eq!(c.voters_off, vec![0, 2, 2, 5]);
}

#[test]
fn tally_votes_counts_and_seeds() {
    let mut c = EdgePointCollection::new(6, 1, 6, 1);
    for x in 0..6 {
        c.add_point(x, 0, 1, 1);
    }
    c.finish_points();
    // point i votes for chosen[i]
    let chosen = [3, 3, NO_EDGE, 1, 3, 1];
    let seeds = tally_votes(&mut c, &chosen, 2);
    assert_eq!(c.voters(3), &[0, 1, 4]);
    assert_eq!(c.voters(1), &[3, 5]);
    assert_eq!(c.is_max, vec![-1, 2, -1, 3, -1, -1]);
    assert_eq!(seeds, vec![3, 1]);
    let mut s = seeds.clone();
    sort_seeds(&c, &mut s);
    assert_eq!(s, vec![3, 1]);
}

#[test]
fn tally_votes_with_zero_threshold_selects_on_first_vote() {
    let mut c = EdgePointCollection::new(3, 1, 3, 1);
    for x in 0..3 {
        c.add_point(x, 0, 1, 1);
    }
    let seeds = tally_votes(&mut c, &[2, 0, 2], 0);
    assert_eq!(seeds, vec![2, 0]);
    assert_eq!(c.is_max, vec![1, -1, 2]);
}

#[test]
fn sort_seeds_is_stable_descending() {
    let mut c = EdgePointCollection::new(6, 1, 6, 1);
    for x in 0..6 {
        c.add_point(x, 0, 1, 1);
    }
    c.is_max = vec![3, 5, 3, 1, 5, 3];
    let mut seeds = vec![0, 1, 2, 3, 4, 5];
    sort_seeds(&c, &mut seeds);
    assert_eq!(seeds, vec![1, 4, 0, 2, 5, 3]);
    let mut one = vec![3];
    sort_seeds(&c, &mut one);
    assert_eq!(one, vec![3]);
}

#[test]
fn children_of_uses_vote_threshold() {
    let mut c = EdgePointCollection::new(30, 1, 30, 1);
    for x in 0..30 {
        c.add_point(x, 0, 1, 1);
    }
    // point 0 gets 28 votes, point 1 gets 1, point 2 gets 2
    let mut pairs = Vec::new();
    for v in 3..31 {
        pairs.push((0, (v % 30) as i32));
    }
    pairs.push((1, 5));
    pairs.push((2, 6));
    pairs.push((2, 7));
    c.create_voter_lists(&pairs);
    let seg: VecDeque<i32> = VecDeque::from(vec![1, 2, 0, 3]);
    // max votes 28 -> threshold 2: point 1 (1 vote) and 3 (0 votes) are skipped
    let ch = children_of(&c, &seg);
    let mut expect = vec![6, 7];
    expect.extend(c.voters(0).iter().copied());
    assert_eq!(ch, expect);
}

#[test]
fn segment_labels() {
    let mut c = EdgePointCollection::new(5, 1, 5, 1);
    for x in 0..5 {
        c.add_point(x, 0, 1, 1);
    }
    let mut counter = 0usize;
    let l0 = loop_two_b_label(&mut c, &[0, 1], &mut counter);
    assert_eq!((l0, counter), (0, 1));
    let l1 = loop_two_b_label(&mut c, &[2, 3], &mut counter);
    assert_eq!((l1, counter), (1, 2));
    // a candidate sharing point 3 reuses its label
    let l2 = loop_two_b_label(&mut c, &[4, 3, 0], &mut counter);
    assert_eq!((l2, counter), (1, 2));
    assert_eq!(c.n_segment_out, vec![1, 0, 1, 1, 1]);
}

#[test]
fn add_point_then_at_reads_it_back() {
    let mut c = EdgePointCollection::new(4, 3, 4, 3);
    let a = c.add_point(2, 1, 5, -5);
    let b = c.add_point(3, 2, 1, 1);
    assert_eq!((a, b), (0, 1));
    assert_eq!(c.at(2, 1), a);
    assert_eq!(c.at(3, 2), b);
    assert_eq!(c.at(1, 1), NO_EDGE);
    let again = c.add_point(2, 1, 0, 0);
    assert_eq!(c.at(2, 1), again);
    assert_eq!(c.at(3, 2), b);
}
