use box_intersect_ze::boxes::{BBox, Box3D};
use box_intersect_ze::internals;
use box_intersect_ze::set::BBoxSet;
use box_intersect_ze::{
    intersect_brute_force, intersect_brute_force_flex, intersect_brute_force_idx, intersect_scan,
    intersect_scan_idx, intersect_ze, intersect_ze_custom, AnswerFormat, Rng,
};
use rand::SeedableRng;

type Box3 = Box3D<i32>;

fn three_boxes() -> BBoxSet<Box3, usize> {
    let box0 = Box3::new([0, 0, 0], [10, 10, 10]);
    let box1 = Box3::new([5, 5, 5], [15, 15, 15]);
    let box2 = Box3::new([10, 10, 10], [20, 20, 20]);
    let mut boxes = BBoxSet::with_capacity(3);
    boxes.push(0, box0);
    boxes.push(1, box1);
    boxes.push(2, box2);
    boxes.sort();
    boxes
}

fn four_boxes() -> BBoxSet<Box3, usize> {
    let mut boxes = three_boxes();
    boxes.push(3, Box3::new([0, 0, 50], [20, 20, 60]));
    boxes.sort();
    boxes
}

fn unordered(pairs: &Vec<(usize, usize)>) -> Vec<(usize, usize)> {
    let mut all: Vec<(usize, usize)> = pairs
        .iter()
        .map(|&(a, b)| if a < b { (a, b) } else { (b, a) })
        .collect();
    all.sort();
    all
}

#[test]
fn touching_boxes_do_not_intersect() {
    let boxes = three_boxes();
    let mut result = Vec::with_capacity(2);
    let mut rng = rand_chacha::ChaCha8Rng::seed_from_u64(1234);
    intersect_ze(&boxes, &boxes, &mut result, &mut rng);

    assert!(result.contains(&(0, 1)));
    assert!(result.contains(&(1, 2)));
    assert!(!result.contains(&(2, 0)));
    assert!(!result.contains(&(0, 2)));
    assert_eq!(result.len(), 2);
}

#[test]
fn three_boxes_by_every_algorithm() {
    let boxes = three_boxes();
    let expected = vec![(0, 1), (1, 2)];

    let mut brute = Vec::new();
    intersect_brute_force(&boxes, &boxes, &mut brute);
    assert_eq!(brute, expected);

    let mut scan = Vec::new();
    intersect_scan(&boxes, &boxes, &mut scan);
    assert_eq!(unordered(&scan), expected);

    let mut one_way = Vec::new();
    internals::one_way_scan(&boxes, &boxes, 2, AnswerFormat::Ident(&mut one_way));
    assert_eq!(unordered(&one_way), expected);

    let mut simulated = Vec::new();
    internals::simulated_one_way_scan(&boxes, &boxes, 2, AnswerFormat::Ident(&mut simulated));
    assert_eq!(simulated, expected);

    let mut rng = rand_chacha::ChaCha8Rng::seed_from_u64(5);
    let mut ze = Vec::new();
    intersect_ze_custom::<_, _, _, 1>(&boxes, &boxes, &mut ze, &mut rng);
    assert_eq!(unordered(&ze), expected);
}

#[test]
fn a_box_apart_on_the_last_axis_adds_no_pair() {
    let boxes = four_boxes();
    let expected = vec![(0, 1), (1, 2)];

    let mut brute = Vec::new();
    intersect_brute_force(&boxes, &boxes, &mut brute);
    assert_eq!(unordered(&brute), expected);

    let mut scan = Vec::new();
    intersect_scan(&boxes, &boxes, &mut scan);
    assert_eq!(unordered(&scan), expected);

    let mut simulated = Vec::new();
    internals::simulated_one_way_scan(&boxes, &boxes, 2, AnswerFormat::Ident(&mut simulated));
    assert_eq!(unordered(&simulated), expected);

    let mut rng = rand_chacha::ChaCha8Rng::seed_from_u64(5);
    for _ in 0..5 {
        let mut ze = Vec::new();
        intersect_ze_custom::<_, _, _, 1>(&boxes, &boxes, &mut ze, &mut rng);
        assert_eq!(unordered(&ze), expected);
    }
    let mut ze = Vec::new();
    intersect_ze(&boxes, &boxes, &mut ze, &mut rng);
    assert_eq!(unordered(&ze), expected);
}

#[test]
fn equal_boxes_are_reported_once() {
    let mut boxes = BBoxSet::with_capacity(2);
    boxes.push(0usize, Box3::new([0, 0, 0], [1, 1, 1]));
    boxes.push(1usize, Box3::new([0, 0, 0], [1, 1, 1]));
    boxes.sort();

    let mut brute = Vec::new();
    intersect_brute_force(&boxes, &boxes, &mut brute);
    assert_eq!(unordered(&brute), vec![(0, 1)]);

    let mut scan = Vec::new();
    intersect_scan(&boxes, &boxes, &mut scan);
    assert_eq!(unordered(&scan), vec![(0, 1)]);

    let mut one_way = Vec::new();
    internals::one_way_scan(&boxes, &boxes, 2, AnswerFormat::Ident(&mut one_way));
    assert_eq!(one_way, vec![(1, 0)]);

    let mut simulated = Vec::new();
    internals::simulated_one_way_scan(&boxes, &boxes, 2, AnswerFormat::Ident(&mut simulated));
    assert_eq!(simulated, vec![(0, 1)]);

    let mut rng = rand_chacha::ChaCha8Rng::seed_from_u64(3);
    let mut ze = Vec::new();
    intersect_ze(&boxes, &boxes, &mut ze, &mut rng);
    assert_eq!(unordered(&ze), vec![(0, 1)]);
    let mut ze1 = Vec::new();
    intersect_ze_custom::<_, _, _, 1>(&boxes, &boxes, &mut ze1, &mut rng);
    assert_eq!(unordered(&ze1), vec![(0, 1)]);
}

#[test]
fn empty_sets_give_no_pairs() {
    let empty: BBoxSet<Box3, usize> = BBoxSet::new();
    let boxes = three_boxes();
    let mut rng = rand_chacha::ChaCha8Rng::seed_from_u64(3);
    let mut out = Vec::new();
    intersect_ze(&empty, &empty, &mut out, &mut rng);
    intersect_ze(&empty, &boxes, &mut out, &mut rng);
    intersect_ze(&boxes, &empty, &mut out, &mut rng);
    intersect_scan(&empty, &boxes, &mut out);
    intersect_scan(&boxes, &empty, &mut out);
    intersect_scan(&empty, &empty, &mut out);
    intersect_brute_force(&empty, &boxes, &mut out);
    intersect_brute_force(&boxes, &empty, &mut out);
    intersect_brute_force(&empty, &empty, &mut out);
    assert!(out.is_empty());
}

#[test]
fn the_same_set_is_told_from_an_equal_one() {
    let boxes = three_boxes();
    let copy = boxes.clone();

    let mut within = Vec::new();
    intersect_brute_force_idx(&boxes, &boxes, &mut within);
    assert_eq!(within, vec![(0, 1), (1, 2)]);

    let mut between = Vec::new();
    intersect_brute_force_idx(&boxes, &copy, &mut between);
    assert_eq!(
        between,
        vec![(0, 0), (0, 1), (1, 0), (1, 1), (1, 2), (2, 1), (2, 2)]
    );

    let mut told = Vec::new();
    internals::brute_force(&boxes, &copy, false, AnswerFormat::Index(&mut told));
    assert_eq!(told, between);
    let mut told_same = Vec::new();
    internals::brute_force(&boxes, &copy, true, AnswerFormat::Index(&mut told_same));
    assert_eq!(told_same, within);
}

#[test]
fn two_sets_by_every_algorithm() {
    let mut a = BBoxSet::with_capacity(3);
    a.push(10usize, Box3::new([0, 0, 0], [4, 4, 4]));
    a.push(11usize, Box3::new([2, 2, 2], [6, 6, 6]));
    a.push(12usize, Box3::new([8, 8, 8], [9, 9, 9]));
    a.sort();
    let mut b = BBoxSet::with_capacity(3);
    b.push(20usize, Box3::new([3, 3, 3], [5, 5, 5]));
    b.push(21usize, Box3::new([5, 0, 0], [9, 3, 3]));
    b.push(22usize, Box3::new([0, 0, 0], [1, 1, 9]));
    b.sort();
    let expected = vec![(10, 20), (10, 22), (11, 20), (11, 21)];

    let mut brute = Vec::new();
    intersect_brute_force(&a, &b, &mut brute);
    assert_eq!(unordered(&brute), expected);

    let mut scan = Vec::new();
    intersect_scan(&a, &b, &mut scan);
    assert_eq!(unordered(&scan), expected);
    for &(x, y) in &scan {
        assert!(x < 20 && y >= 20);
    }

    let mut two_way = Vec::new();
    internals::two_way_scan(&a, &b, AnswerFormat::Ident(&mut two_way));
    assert_eq!(unordered(&two_way), expected);

    let mut rng = rand_chacha::ChaCha8Rng::seed_from_u64(11);
    for _ in 0..5 {
        let mut ze = Vec::new();
        intersect_ze_custom::<_, _, _, 1>(&a, &b, &mut ze, &mut rng);
        assert_eq!(unordered(&ze), expected);
    }
    let mut told = Vec::new();
    internals::stream::<_, _, _, 2>(&a, &b, false, &mut told, &mut rng);
    assert_eq!(unordered(&told), expected);
}

#[test]
fn positions_name_the_first_set_first() {
    let mut a = BBoxSet::with_capacity(2);
    a.push(10usize, Box3::new([0, 0, 0], [4, 4, 4]));
    a.push(11usize, Box3::new([6, 0, 0], [9, 4, 4]));
    let mut b = BBoxSet::with_capacity(3);
    b.push(20usize, Box3::new([-5, 0, 0], [-1, 4, 4]));
    b.push(21usize, Box3::new([-3, 0, 0], [1, 4, 4]));
    b.push(22usize, Box3::new([7, 1, 1], [8, 2, 2]));

    let mut idx = Vec::new();
    intersect_scan_idx(&a, &b, &mut idx);
    assert_eq!(idx, vec![(0, 1), (1, 2)]);

    let mut both = Vec::new();
    internals::two_way_scan(&a, &b, AnswerFormat::Both(&mut both));
    assert_eq!(both, vec![((0, 1), (10, 21)), ((1, 2), (11, 22))]);

    let mut brute = Vec::new();
    intersect_brute_force_flex(&a, &b, AnswerFormat::Both(&mut brute));
    assert_eq!(brute, vec![((0, 1), (10, 21)), ((1, 2), (11, 22))]);

    let mut same_idx = Vec::new();
    intersect_scan_idx(&b, &b, &mut same_idx);
    assert_eq!(same_idx, vec![(0, 1)]);

    let mut one_way = Vec::new();
    internals::one_way_scan(&a, &b, 2, AnswerFormat::Both(&mut one_way));
    assert_eq!(one_way, vec![((1, 2), (11, 22))]);
}

#[test]
fn the_sink_keeps_what_it_held() {
    let boxes = three_boxes();
    let mut out = vec![(7usize, 7usize)];
    intersect_brute_force(&boxes, &boxes, &mut out);
    assert_eq!(out, vec![(7, 7), (0, 1), (1, 2)]);
    intersect_scan(&boxes, &boxes, &mut out);
    assert_eq!(out.len(), 5);
    assert_eq!(out[0], (7, 7));

    let mut sink = AnswerFormat::Ident(&mut out);
    sink.push((3, 4), (8, 9));
    let mut lent = sink.reborrow();
    lent.push((5, 6), (1, 1));
    assert_eq!(out[5], (8, 9));
    assert_eq!(out[6], (1, 1));
    assert_eq!(out.len(), 7);
}

#[test]
fn hybrid_on_one_axis_scans_one_way() {
    let boxes = three_boxes();
    let mut rng = rand_chacha::ChaCha8Rng::seed_from_u64(11);
    let mut out = Vec::new();
    internals::hybrid::<_, _, _, 1>(&boxes, &boxes, i32::MIN, i32::MAX, 0, &mut out, &mut rng);
    assert_eq!(out, vec![(0, 1), (1, 2)]);

    let mut flex = Vec::new();
    internals::hybrid_flex::<_, _, _, 1>(
        &boxes,
        &boxes,
        i32::MIN,
        i32::MAX,
        2,
        AnswerFormat::Ident(&mut flex),
        &mut rng,
    );
    assert_eq!(unordered(&flex), vec![(0, 1), (1, 2)]);
}

#[test]
fn both_generators_draw_below_the_bound() {
    let mut chacha = rand_chacha::ChaCha8Rng::seed_from_u64(1);
    let mut std = rand::rngs::StdRng::seed_from_u64(1);
    let mut seen = [false; 3];
    for _ in 0..200 {
        let x = chacha.rand_usize(3);
        assert!(x < 3);
        seen[x] = true;
        let y = std.rand_usize(3);
        assert!(y < 3);
        assert_eq!(chacha.rand_usize(1), 0);
        assert_eq!(std.rand_usize(1), 0);
    }
    assert_eq!(seen, [true, true, true]);
}

#[test]
fn overlap_on_a_range_of_axes() {
    let a = Box3::new([0, 0, 0], [10, 10, 10]);
    let b = Box3::new([20, 5, 5], [30, 15, 15]);
    assert!(!internals::overlap_between(&a, &b, 0, 3));
    assert!(internals::overlap_between(&a, &b, 1, 3));
    assert!(internals::overlap_between(&a, &b, 0, 0));
    assert!(a.intersects_in(1, 5, 15));
    assert!(!a.intersects_in(1, 10, 15));
    assert!(a.contains_in(2, 0));
    assert!(a.contains_in(2, 9));
    assert!(!a.contains_in(2, 10));
    assert_eq!(a.lo(0), 0);
    assert_eq!(b.hi(2), 15);
    assert_eq!(Box3::DIM, 3);
}

#[test]
fn sets_out_of_order_are_worked_through() {
    let mut boxes = BBoxSet::with_capacity(40);
    for i in 0..40usize {
        let lo = ((i * 17) % 23) as i32;
        boxes.push(i, Box3::new([lo, lo / 2, 40 - lo], [lo + 5, lo / 2 + 4, 47 - lo]));
    }
    let mut rng = rand_chacha::ChaCha8Rng::seed_from_u64(21);
    let mut out = Vec::new();
    intersect_scan(&boxes, &boxes, &mut out);
    intersect_ze(&boxes, &boxes, &mut out, &mut rng);
    intersect_ze_custom::<_, _, _, 0>(&boxes, &boxes, &mut out, &mut rng);
    intersect_ze_custom::<_, _, _, 2>(&boxes, &boxes.clone(), &mut out, &mut rng);
    internals::two_way_scan(&boxes, &boxes, AnswerFormat::Ident(&mut out));
    internals::simulated_one_way_scan(&boxes, &boxes, 1, AnswerFormat::Ident(&mut out));
    // a segment that holds none of the points
    internals::hybrid::<_, _, _, 0>(&boxes, &boxes, 100, 200, 2, &mut out, &mut rng);
    internals::hybrid::<_, _, _, 0>(&boxes, &boxes, 10, 12, 1, &mut out, &mut rng);
    internals::hybrid::<_, _, _, 0>(&boxes, &boxes, 5, 5, 2, &mut out, &mut rng);
    for &(a, b) in &out {
        assert!(a < 40 && b < 40);
    }
}

#[test]
fn boxes_without_extent_are_worked_through() {
    let mut boxes = BBoxSet::with_capacity(3);
    boxes.push(0usize, Box3::new([5, 0, 0], [5, 9, 9]));
    boxes.push(1usize, Box3::new([5, 0, 0], [10, 9, 9]));
    boxes.push(2usize, Box3::new([12, 0, 0], [11, 9, 9]));
    boxes.sort();
    let mut brute = Vec::new();
    intersect_brute_force(&boxes, &boxes, &mut brute);
    assert!(brute.is_empty());
    let mut rng = rand_chacha::ChaCha8Rng::seed_from_u64(21);
    let mut out = Vec::new();
    intersect_scan(&boxes, &boxes, &mut out);
    intersect_ze(&boxes, &boxes, &mut out, &mut rng);
    intersect_ze_custom::<_, _, _, 1>(&boxes, &boxes, &mut out, &mut rng);
    for &(a, b) in &out {
        assert_ne!(a, b);
    }
}

#[test]
fn every_shape_is_given_every_pair() {
    let boxes = four_boxes();
    let mut rng = rand_chacha::ChaCha8Rng::seed_from_u64(8);
    let mut both = Vec::new();
    internals::hybrid_flex::<_, _, _, 2>(
        &boxes,
        &boxes,
        i32::MIN,
        i32::MAX,
        2,
        AnswerFormat::Both(&mut both),
        &mut rng,
    );
    let ids: Vec<(usize, usize)> = both.iter().map(|r| r.1).collect();
    assert_eq!(unordered(&ids), vec![(0, 1), (1, 2)]);

    let mut index = Vec::new();
    internals::hybrid_flex::<_, _, _, 2>(
        &boxes,
        &boxes,
        i32::MIN,
        i32::MAX,
        2,
        AnswerFormat::Index(&mut index),
        &mut rng,
    );
    assert_eq!(index.len(), 2);

    let mut scanned = Vec::new();
    internals::scan(&boxes, &boxes, true, AnswerFormat::Both(&mut scanned));
    assert_eq!(scanned.len(), 2);
    for &((x, y), (a, b)) in &scanned {
        assert_eq!(boxes.get(x).1, a);
        assert_eq!(boxes.get(y).1, b);
    }
}

#[test]
fn a_segment_without_room_gives_no_pairs() {
    let boxes = three_boxes();
    let empty: BBoxSet<Box3, usize> = BBoxSet::new();
    let mut rng = rand_chacha::ChaCha8Rng::seed_from_u64(4);
    let mut out = vec![(9usize, 9usize)];
    internals::hybrid::<_, _, _, 1>(&boxes, &boxes, 5, 5, 2, &mut out, &mut rng);
    internals::hybrid::<_, _, _, 1>(&boxes, &boxes, 7, 3, 0, &mut out, &mut rng);
    internals::hybrid::<_, _, _, 1000>(&boxes, &boxes, 7, 3, 1, &mut out, &mut rng);
    internals::hybrid::<_, _, _, 1>(&empty, &boxes, i32::MIN, i32::MAX, 2, &mut out, &mut rng);
    internals::hybrid::<_, _, _, 1>(&boxes, &empty, i32::MIN, i32::MAX, 0, &mut out, &mut rng);
    assert_eq!(out, vec![(9, 9)]);
}

#[test]
fn the_tree_hands_small_sets_to_the_scans() {
    let boxes = four_boxes();
    let mut rng = rand_chacha::ChaCha8Rng::seed_from_u64(4);

    let mut by_tree = Vec::new();
    internals::hybrid_flex::<_, _, _, 1000>(
        &boxes,
        &boxes,
        i32::MIN,
        i32::MAX,
        2,
        AnswerFormat::Both(&mut by_tree),
        &mut rng,
    );
    let mut by_scan = Vec::new();
    internals::simulated_one_way_scan(&boxes, &boxes, 2, AnswerFormat::Both(&mut by_scan));
    assert_eq!(by_tree, by_scan);

    let mut by_tree = Vec::new();
    internals::hybrid_flex::<_, _, _, 0>(
        &boxes,
        &boxes,
        i32::MIN,
        i32::MAX,
        0,
        AnswerFormat::Both(&mut by_tree),
        &mut rng,
    );
    let mut by_scan = Vec::new();
    internals::one_way_scan(&boxes, &boxes, 0, AnswerFormat::Both(&mut by_scan));
    assert_eq!(by_tree, by_scan);
    assert!(!by_scan.is_empty());
}

#[test]
fn rows_come_in_order() {
    let mut boxes = BBoxSet::with_capacity(30);
    for i in 0..30usize {
        let lo = (i / 3) as i32;
        boxes.push(i, Box3::new([lo, 0, 0], [lo + 4, 5, 5]));
    }
    let mut brute = Vec::new();
    intersect_brute_force_idx(&boxes, &boxes, &mut brute);
    let mut sorted = brute.clone();
    sorted.sort();
    assert_eq!(brute, sorted);
    assert!(brute.len() > 30);

    let mut between = Vec::new();
    intersect_brute_force_idx(&boxes, &boxes.clone(), &mut between);
    let mut sorted = between.clone();
    sorted.sort();
    assert_eq!(between, sorted);

    let mut one_way = Vec::new();
    internals::one_way_scan(&boxes, &boxes, 2, AnswerFormat::Index(&mut one_way));
    let mut sorted = one_way.clone();
    sorted.sort();
    assert_eq!(one_way, sorted);
    assert_eq!(one_way.len(), brute.len());
}

#[test]
fn the_sweep_reports_no_box_with_itself() {
    let boxes = four_boxes();
    let mut sweep = Vec::new();
    internals::_two_way_scan::<_, _, false>(&boxes, &boxes, 2, AnswerFormat::Ident(&mut sweep));
    // every pair that meets, once from either side
    assert_eq!(unordered(&sweep), vec![(0, 1), (0, 1), (1, 2), (1, 2)]);
    let mut simulated = Vec::new();
    internals::_two_way_scan::<_, _, true>(&boxes, &boxes, 2, AnswerFormat::Ident(&mut simulated));
    assert_eq!(unordered(&simulated), vec![(0, 1), (1, 2)]);
    let mut flex = Vec::new();
    box_intersect_ze::intersect_scan_flex(&boxes, &boxes, AnswerFormat::Both(&mut flex));
    assert_eq!(flex.len(), 2);
    for &((x, y), (a, b)) in &flex {
        assert_ne!(a, b);
        assert_eq!(boxes.get(x).1, a);
        assert_eq!(boxes.get(y).1, b);
    }
}

/// Counts how often it is asked, and answers with the position in the middle.
struct Counting {
    asked: usize,
}

impl Rng for Counting {
    fn rand_usize(&mut self, high: usize) -> usize {
        self.asked += 1;
        high / 2
    }
}

#[test]
fn small_sets_do_not_ask_the_generator() {
    let mut boxes = BBoxSet::with_capacity(2);
    boxes.push(0usize, Box3::new([0, 0, 0], [1, 1, 1]));
    boxes.push(1usize, Box3::new([0, 0, 0], [1, 1, 1]));
    boxes.sort();
    let mut rng = Counting { asked: 0 };
    let mut out = Vec::new();
    intersect_ze(&boxes, &boxes, &mut out, &mut rng);
    assert_eq!(out.len(), 1);
    assert!(out[0] == (0, 1) || out[0] == (1, 0));
    assert_eq!(rng.asked, 0);

    let four = four_boxes();
    let empty: BBoxSet<Box3, usize> = BBoxSet::new();
    let mut out = Vec::new();
    intersect_ze_custom::<_, _, _, 5>(&four, &four.clone(), &mut out, &mut rng);
    internals::hybrid::<_, _, _, 0>(&four, &four, 5, 5, 2, &mut out, &mut rng);
    internals::hybrid::<_, _, _, 0>(&four, &four, i32::MIN, i32::MAX, 0, &mut out, &mut rng);
    internals::hybrid::<_, _, _, 0>(&four, &empty, i32::MIN, i32::MAX, 2, &mut out, &mut rng);
    internals::hybrid_flex::<_, _, _, 5>(
        &four,
        &four,
        i32::MIN,
        i32::MAX,
        2,
        AnswerFormat::Ident(&mut out),
        &mut rng,
    );
    assert_eq!(rng.asked, 0);

    // above the cutoff the tree asks for a median
    internals::hybrid::<_, _, _, 0>(&four, &four, i32::MIN, i32::MAX, 2, &mut out, &mut rng);
    assert!(rng.asked > 0);
}
