use box_intersect_ze::median::{approx_median, median_of_3, sample_depth};

#[test]
fn the_median_of_three_is_the_middle_one() {
    assert_eq!(median_of_3(1, 2, 3), 2);
    assert_eq!(median_of_3(1, 3, 2), 2);
    assert_eq!(median_of_3(2, 1, 3), 2);
    assert_eq!(median_of_3(2, 3, 1), 2);
    assert_eq!(median_of_3(3, 1, 2), 2);
    assert_eq!(median_of_3(3, 2, 1), 2);
    assert_eq!(median_of_3(5, 5, 1), 5);
    assert_eq!(median_of_3(1, 5, 5), 5);
    assert_eq!(median_of_3(5, 1, 5), 5);
    assert_eq!(median_of_3(1, 1, 5), 1);
    assert_eq!(median_of_3(7, 7, 7), 7);
    assert_eq!(median_of_3(-4i64, 9, 0), 0);
}

#[test]
fn the_depth_follows_the_logarithm() {
    assert_eq!(sample_depth(0), 1);
    assert_eq!(sample_depth(1), 1);
    assert_eq!(sample_depth(137), 1);
    assert_eq!(sample_depth(274), 1);
    assert_eq!(sample_depth(275), 1);
    assert_eq!(sample_depth(1096), 1);
    assert_eq!(sample_depth(1097), 2);
    assert_eq!(sample_depth(3565), 2);
    assert_eq!(sample_depth(3566), 3);
    assert_eq!(sample_depth(10972), 3);
    assert_eq!(sample_depth(10973), 4);
    assert_eq!(sample_depth(100_000), 6);
    assert_eq!(sample_depth(1_000_000), 8);
}

#[test]
fn the_depth_is_the_integer_part_of_the_formula() {
    let sizes: [usize; 12] = [
        1, 100, 500, 1000, 2000, 5000, 20_000, 50_000, 123_456, 400_000, 2_000_000, 50_000_000,
    ];
    for &n in sizes.iter() {
        let exact = (0.91 * ((n as f64) / 137.0 + 1.0).ln()).floor();
        let expected = if exact < 1.0 { 1 } else { exact as u8 };
        assert_eq!(sample_depth(n), expected);
    }
}

#[test]
fn a_tree_without_levels_reads_one_item() {
    let items = vec![10, 20, 30, 40];
    let mut indices = vec![0, 3, 2];
    assert_eq!(approx_median(&items, 0, &mut indices), 30);
    assert_eq!(indices, vec![0, 3]);
    assert_eq!(approx_median(&items, 0, &mut indices), 40);
    assert_eq!(indices, vec![0]);
}

#[test]
fn a_tree_takes_its_positions_off_the_end() {
    let items = vec![10, 20, 30, 40, 50];
    let mut indices = vec![4, 4, 0, 1, 3];
    assert_eq!(approx_median(&items, 1, &mut indices), 20);
    assert_eq!(indices, vec![4, 4]);

    // the leaves read 50 10 20, 30 30 40, 10 50 40: their medians are 20, 30 and 40
    let mut nine = vec![3, 4, 0, 3, 2, 2, 1, 0, 4];
    assert_eq!(approx_median(&items, 2, &mut nine), 30);
    assert!(nine.is_empty());

    let mut more = vec![1, 1, 3, 4, 0, 3, 2, 2, 1, 0, 4];
    assert_eq!(approx_median(&items, 2, &mut more), 30);
    assert_eq!(more, vec![1, 1]);
}
