use box_intersect_ze::boxes::{BBox, BoxND};
use box_intersect_ze::intersect_brute_force;
use box_intersect_ze::set::BBoxSet;
use rand::{Rng as OtherRng, SeedableRng};
use std::fmt::Debug;

/// A box with bounds of type `f32`, each held as the integer that is
/// ordered among integers as the bound is among floating point numbers.
type Box3Df32 = BoxND<i32, 3>;

/// The integer that stands for `x`: of two numbers, the lesser has the lesser integer.
fn key(x: f32) -> i32 {
    let bits = (x + 0.0).to_bits() as i32;
    if bits < 0 {
        bits ^ i32::MAX
    } else {
        bits
    }
}

fn box3(min: [f32; 3], max: [f32; 3]) -> Box3Df32 {
    Box3Df32::new(
        [key(min[0]), key(min[1]), key(min[2])],
        [key(max[0]), key(max[1]), key(max[2])],
    )
}

#[test]
fn keys_are_ordered_as_their_numbers() {
    let numbers = [
        f32::NEG_INFINITY,
        -1.0e30,
        -2.5,
        -1.0,
        -1.0e-30,
        0.0,
        1.0e-30,
        0.5,
        1.0,
        10.0,
        1.0e30,
        f32::INFINITY,
    ];
    for i in 0..numbers.len() {
        for j in 0..numbers.len() {
            assert_eq!(numbers[i] < numbers[j], key(numbers[i]) < key(numbers[j]));
        }
    }
    assert_eq!(key(-0.0), key(0.0));
}

fn same<ID: Eq + Copy + Debug>(correct: &Vec<(ID, ID)>, actual: &Vec<(ID, ID)>) -> bool {
    let mut missing = false;
    for el in correct {
        if !(actual.contains(el) || actual.contains(&(el.1, el.0))) {
            println!("Missing element: {:?}", el);
            missing = true;
        }
    }

    if correct.len() != actual.len() {
        for el in actual {
            if !(correct.contains(el) || correct.contains(&(el.1, el.0))) {
                println!("Incorrect element: {:?}", el);
                missing = true;
            }
        }
        println!("Correct: {}, observed: {}", correct.len(), actual.len());
    }

    correct.len() == actual.len() && !missing
}

fn random_boxes(n: usize, start: usize, seed: u64) -> BBoxSet<Box3Df32, usize> {
    let mut r = rand_chacha::ChaCha8Rng::seed_from_u64(seed);
    let mut set = BBoxSet::with_capacity(n);
    let nf = n as f32;
    let len_max = nf.powf(2.0 / 3.0).floor() as usize;
    let lo_max = n - len_max;
    for i in start..start + n {
        let mut min = [0.0; 3];
        let mut max = [0.0; 3];
        for d in 0..min.len() {
            let lo = r.gen_range(1..lo_max as u32);
            let hi = lo + r.gen_range(1..len_max as u32);
            min[d] = lo as f32;
            max[d] = hi as f32;
        }

        set.push(i, box3(min, max));
    }
    set
}

struct TestData {
    boxes1: BBoxSet<Box3Df32, usize>,
    boxes2: BBoxSet<Box3Df32, usize>,
    complete: Vec<(usize, usize)>,
    bipartite: Vec<(usize, usize)>,
}

/// Generates some random boxes and finds their intersections using brute force, as a reference to validate against
fn test_data() -> TestData {
    let mut boxes1 = random_boxes(150, 0, 12345);
    let mut boxes2 = random_boxes(150, boxes1.len(), 54321);
    boxes1.sort();
    boxes2.sort();

    let mut complete = Vec::<(usize, usize)>::with_capacity(80);
    intersect_brute_force(&boxes1, &boxes1, &mut complete);

    let mut bipartite = Vec::<(usize, usize)>::with_capacity(80);
    intersect_brute_force(&boxes1, &boxes2, &mut bipartite);

    assert_ne!(complete.len(), 0);
    assert_ne!(bipartite.len(), 0);

    TestData {
        boxes1,
        boxes2,
        complete,
        bipartite,
    }
}

#[test]
fn intersect() {
    let box0 = box3([0.0, 0.0, 0.0], [10.0, 10.0, 10.0]);
    let box1 = box3([5.0, 5.0, 5.0], [15.0, 15.0, 15.0]);
    let box2 = box3([10.0, 10.0, 10.0], [20.0, 20.0, 20.0]); //touches tip of box0
    let box3 = box3([0.0, 0.0, 50.0], [20.0, 20.0, 60.0]); //intersects all except in dimension 2

    assert!(box0.intersects(&box0));

    assert!(box0.intersects(&box1));
    assert!(box1.intersects(&box0));

    assert!(!box0.intersects(&box2));
    assert!(!box2.intersects(&box0));

    assert!(box1.intersects(&box2));
    assert!(box2.intersects(&box1));

    assert!(!box0.intersects(&box3));
    assert!(!box3.intersects(&box0));
}

// Validate the different algorithms against the brute force solution

#[test]
fn one_way_scan() {
    let data = test_data();
    let mut res = Vec::<(usize, usize)>::with_capacity(80);
    box_intersect_ze::internals::one_way_scan(
        &data.boxes1,
        &data.boxes1,
        2,
        box_intersect_ze::AnswerFormat::Ident(&mut res),
    );
    assert!(same(&data.complete, &res));
}

#[test]
fn simulated_one_way_scan() {
    let data = test_data();
    let mut res = Vec::<(usize, usize)>::with_capacity(80);
    box_intersect_ze::internals::simulated_one_way_scan(
        &data.boxes1,
        &data.boxes1,
        2,
        box_intersect_ze::AnswerFormat::Ident(&mut res),
    );

    assert!(same(&data.complete, &res));
}

#[test]
fn two_way_scan() {
    let data = test_data();
    let mut res = Vec::<(usize, usize)>::with_capacity(80);
    box_intersect_ze::internals::two_way_scan(
        &data.boxes1,
        &data.boxes2,
        box_intersect_ze::AnswerFormat::Ident(&mut res),
    );

    assert!(same(&data.bipartite, &res));
}

#[test]
fn box_intersect() {
    let data = test_data();
    let mut res = Vec::<(usize, usize)>::with_capacity(data.complete.len());
    let mut r = rand_chacha::ChaCha8Rng::seed_from_u64(12345);

    box_intersect_ze::intersect_ze_custom::<_, _, _, 5>(
        &data.boxes1,
        &data.boxes1,
        &mut res,
        &mut r,
    );

    for &(id1, id2) in &res {
        if res.contains(&(id2, id1)) {
            println!("duplicate: {:?}", (id1, id2))
        }
    }

    for (idx, &(id1, id2)) in res.iter().enumerate() {
        for i in idx + 1..res.len() {
            if res[i] == (id1, id2) {
                println!("duplicate: {:?}", (id1, id2))
            }
        }
    }

    assert!(same(&data.complete, &res));

    let mut res = Vec::<(usize, usize)>::with_capacity(data.bipartite.len());
    box_intersect_ze::intersect_ze_custom::<_, _, _, 5>(
        &data.boxes1,
        &data.boxes2,
        &mut res,
        &mut r,
    );

    assert!(same(&data.bipartite, &res));
}

#[test]
fn every_algorithm_agrees_on_random_boxes() {
    let data = test_data();
    let mut r = rand_chacha::ChaCha8Rng::seed_from_u64(12345);

    let mut ze = Vec::new();
    box_intersect_ze::intersect_ze(&data.boxes1, &data.boxes1, &mut ze, &mut r);
    assert!(same(&data.complete, &ze));

    let mut scan = Vec::new();
    box_intersect_ze::intersect_scan(&data.boxes1, &data.boxes1, &mut scan);
    assert!(same(&data.complete, &scan));

    let mut scan2 = Vec::new();
    box_intersect_ze::intersect_scan(&data.boxes1, &data.boxes2, &mut scan2);
    assert!(same(&data.bipartite, &scan2));

    for &(a, b) in &ze {
        assert_ne!(a, b);
    }
    for &(a, b) in &scan {
        assert_ne!(a, b);
    }
}

#[test]
fn sorting_does_not_change_the_pairs() {
    let unsorted = random_boxes(150, 0, 12345);
    let mut before = Vec::new();
    intersect_brute_force(&unsorted, &unsorted, &mut before);
    let data = test_data();
    assert!(same(&before, &data.complete));
    assert!(same(&data.complete, &before));
}

#[test]
fn small_cutoffs_agree_with_brute_force() {
    let mut boxes = random_boxes(10, 0, 12345);
    boxes.sort();
    let mut expected = Vec::new();
    intersect_brute_force(&boxes, &boxes, &mut expected);

    let mut r = rand_chacha::ChaCha8Rng::seed_from_u64(7);
    let mut one = Vec::new();
    box_intersect_ze::intersect_ze_custom::<_, _, _, 1>(&boxes, &boxes, &mut one, &mut r);
    assert!(same(&expected, &one));

    let mut two = Vec::new();
    box_intersect_ze::intersect_ze_custom::<_, _, _, 2>(&boxes, &boxes, &mut two, &mut r);
    assert!(same(&expected, &two));

    let data = test_data();
    let mut three = Vec::new();
    box_intersect_ze::intersect_ze_custom::<_, _, _, 3>(
        &data.boxes1,
        &data.boxes1,
        &mut three,
        &mut r,
    );
    assert!(same(&data.complete, &three));

    let mut none = Vec::new();
    box_intersect_ze::intersect_ze_custom::<_, _, _, 0>(
        &data.boxes1,
        &data.boxes2,
        &mut none,
        &mut r,
    );
    assert!(same(&data.bipartite, &none));
}

#[test]
fn permuted_axes_give_the_same_pairs() {
    let mut r = rand_chacha::ChaCha8Rng::seed_from_u64(99);
    let mut plain = BBoxSet::with_capacity(40);
    let mut turned = BBoxSet::with_capacity(40);
    for i in 0..40usize {
        let mut min = [0.0; 3];
        let mut max = [0.0; 3];
        for d in 0..3 {
            let lo = r.gen_range(1..30u32);
            let hi = lo + r.gen_range(1..12u32);
            min[d] = lo as f32;
            max[d] = hi as f32;
        }
        plain.push(i, box3(min, max));
        turned.push(i, box3([min[2], min[0], min[1]], [max[2], max[0], max[1]]));
    }
    plain.sort();
    turned.sort();
    let mut a = Vec::new();
    box_intersect_ze::intersect_ze_custom::<_, _, _, 4>(&plain, &plain, &mut a, &mut r);
    let mut b = Vec::new();
    box_intersect_ze::intersect_ze_custom::<_, _, _, 4>(&turned, &turned, &mut b, &mut r);
    assert_ne!(a.len(), 0);
    assert!(same(&a, &b));
    assert!(same(&b, &a));
}
