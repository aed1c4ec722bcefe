use box_intersect_ze::boxes::{BBox, Box2D};
use box_intersect_ze::order::Ordered;
use box_intersect_ze::set::BBoxSet;
use box_intersect_ze::sorting::entry_order;
use box_intersect_ze::{HasInfinity, Rng};
use std::cmp::Ordering;

type Box2 = Box2D<i64>;

/// Hands out the positions it was made with, one after the other.
struct Fixed {
    values: Vec<usize>,
    next: usize,
}

impl Rng for Fixed {
    fn rand_usize(&mut self, high: usize) -> usize {
        let v = self.values[self.next % self.values.len()];
        self.next += 1;
        v % high
    }
}

fn sample() -> BBoxSet<Box2, u32> {
    let mut set = BBoxSet::with_capacity(4);
    set.push(7, Box2::new([5, 1], [6, 2]));
    set.push(3, Box2::new([1, 9], [2, 10]));
    set.push(9, Box2::new([3, 4], [8, 5]));
    set.push(1, Box2::new([1, 0], [4, 1]));
    set
}

fn ids(set: &BBoxSet<Box2, u32>) -> Vec<u32> {
    set.boxes.iter().map(|e| e.1).collect()
}

#[test]
fn a_set_holds_what_was_pushed() {
    let mut set = sample();
    assert_eq!(set.len(), 4);
    assert!(!set.empty());
    let (b, id) = set.get(2);
    assert_eq!(id, 9);
    assert_eq!(b.lo(0), 3);
    assert_eq!(b.hi(1), 5);
    assert_eq!(ids(&set), vec![7, 3, 9, 1]);
    set.clear();
    assert_eq!(set.len(), 0);
    assert!(set.empty());
    let fresh: BBoxSet<Box2, u32> = BBoxSet::new();
    assert!(fresh.empty());
}

#[test]
fn sort_orders_by_the_first_axis() {
    let mut set = sample();
    set.sort();
    let lows: Vec<i64> = set.boxes.iter().map(|e| e.0.lo(0)).collect();
    assert_eq!(lows, vec![1, 1, 3, 5]);
    let mut sorted_ids = ids(&set);
    assert_eq!(sorted_ids[2], 9);
    assert_eq!(sorted_ids[3], 7);
    sorted_ids.sort();
    assert_eq!(sorted_ids, vec![1, 3, 7, 9]);
}

#[test]
fn entries_compare_by_their_low_boundary() {
    let a = (Box2::new([1, 5], [2, 6]), 0u32);
    let b = (Box2::new([3, 0], [4, 1]), 1u32);
    let c = (Box2::new([1, 7], [9, 9]), 2u32);
    assert_eq!(entry_order(&a, &b), Ordering::Less);
    assert_eq!(entry_order(&b, &a), Ordering::Greater);
    assert_eq!(entry_order(&a, &c), Ordering::Equal);
}

#[test]
fn find_returns_the_first_box_with_the_identifier() {
    let mut set = sample();
    set.push(3, Box2::new([100, 100], [101, 101]));
    let found = set.find(3).unwrap();
    assert_eq!(found.lo(0), 1);
    assert_eq!(found.lo(1), 9);
    assert!(set.find(4).is_none());
    assert_eq!(set.find(1).unwrap().hi(0), 4);
}

#[test]
fn filter_and_partition_keep_the_order() {
    let set = sample();
    let odd_low = set.filter(|e| e.0.lo(0) % 2 == 1);
    assert_eq!(ids(&odd_low), vec![7, 3, 9, 1]);
    let small = set.filter(|e| e.1 < 8);
    assert_eq!(ids(&small), vec![7, 3, 1]);
    let none = set.filter(|_| false);
    assert!(none.empty());

    let (yes, no) = set.partition(|e| e.0.lo(0) < 3);
    assert_eq!(ids(&yes), vec![3, 1]);
    assert_eq!(ids(&no), vec![7, 9]);
    assert_eq!(ids(&set), vec![7, 3, 9, 1]);
}

#[test]
fn the_median_of_a_small_set_is_one_of_three_draws() {
    let set = sample();
    // the last position drawn is read first
    let mut rng = Fixed { values: vec![0, 1, 2], next: 0 };
    assert_eq!(set.approx_median(0, &mut rng), 3);
    assert_eq!(rng.next, 3);
    let mut rng = Fixed { values: vec![0, 1, 2], next: 0 };
    assert_eq!(set.approx_median(1, &mut rng), 4);
    let mut rng = Fixed { values: vec![3, 3, 0], next: 0 };
    assert_eq!(set.approx_median(0, &mut rng), 1);
    let mut rng = Fixed { values: vec![0], next: 0 };
    assert_eq!(set.approx_median(0, &mut rng), 5);
    assert_eq!(rng.next, 3);
}

#[test]
fn a_larger_set_draws_more_positions() {
    let mut set = BBoxSet::with_capacity(1100);
    for i in 0..1100usize {
        set.push(i, Box2::new([i as i64, 0], [i as i64 + 1, 1]));
    }
    let mut rng = Fixed { values: vec![500], next: 0 };
    assert_eq!(set.approx_median(0, &mut rng), 500);
    assert_eq!(rng.next, 9);
}

#[test]
fn ranks_follow_the_integers() {
    assert!(3u8.less_than(4));
    assert!(!4u8.less_than(4));
    assert!((-1i32).less_than(0));
    assert!(!0i64.less_than(-1));
    assert!(5usize.equals(5));
    assert!(!5usize.equals(6));
    assert!(5u16.at_most(5));
    assert!(5u32.at_most(6));
    assert!(!7u64.at_most(6));
    assert!((-3i8).less_than(2));
    assert!((-3i16).at_most(-3));
    assert!(2isize.equals(2));
}

#[test]
fn the_infinities_are_the_ends_of_the_integers() {
    assert_eq!(<i32 as HasInfinity>::NINFTY, i32::MIN);
    assert_eq!(<i32 as HasInfinity>::INFTY, i32::MAX);
    assert_eq!(<u8 as HasInfinity>::NINFTY, 0);
    assert_eq!(<u8 as HasInfinity>::INFTY, 255);
    assert_eq!(<i64 as HasInfinity>::INFTY, i64::MAX);
    assert_eq!(<usize as HasInfinity>::NINFTY, 0);
    assert_eq!(<u16 as HasInfinity>::INFTY, u16::MAX);
    assert_eq!(<u32 as HasInfinity>::INFTY, u32::MAX);
    assert_eq!(<u64 as HasInfinity>::INFTY, u64::MAX);
    assert_eq!(<i8 as HasInfinity>::NINFTY, -128);
    assert_eq!(<i16 as HasInfinity>::NINFTY, i16::MIN);
    assert_eq!(<isize as HasInfinity>::INFTY, isize::MAX);
}

#[test]
fn the_median_reads_at_the_positions_it_is_given() {
    let set = sample();
    // the low boundaries on the first axis are 5 1 3 1; the last position is read first
    let mut positions = vec![9, 0, 1, 2];
    assert_eq!(set.median_at(0, &mut positions), 3);
    assert_eq!(positions, vec![9]);
    let mut positions = vec![3, 3, 0];
    assert_eq!(set.median_at(0, &mut positions), 1);
    assert!(positions.is_empty());
    let mut positions = vec![0, 1, 2];
    assert_eq!(set.median_at(1, &mut positions), 4);
}
