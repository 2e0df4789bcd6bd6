use latency_probe::order::sort_ascending;
use latency_probe::stats::{
    floor_sqrt, get_median, get_nth_percentile, mean_nanos, std_dev_nanos, sum_nanos,
};

const MS: u64 = 1_000_000;

#[test]
fn median_of_odd_count_is_the_middle() {
    assert_eq!(15 * MS, get_median(&vec![5 * MS, 10 * MS, 15 * MS, 20 * MS, 25 * MS]));
    assert_eq!(7, get_median(&vec![7]));
    assert_eq!(2, get_median(&vec![1, 2, 900]));
}

#[test]
fn median_of_even_count_is_the_mean_of_the_middle_two() {
    assert_eq!(15, get_median(&vec![10, 20]));
    assert_eq!(25, get_median(&vec![10, 20, 30, 40]));
    assert_eq!(2, get_median(&vec![1, 2, 3, 40]));
    assert_eq!(u64::MAX, get_median(&vec![u64::MAX, u64::MAX]));
}

#[test]
fn median_matches_sorted_middle() {
    let raw: Vec<u64> = vec![31, 4, 15, 9, 26, 5, 35, 8];
    let sorted = sort_ascending(&raw);
    let mut by_std = raw.clone();
    by_std.sort();
    assert_eq!(by_std, sorted);
    assert_eq!((by_std[3] + by_std[4]) / 2, get_median(&sorted));
    let raw: Vec<u64> = vec![31, 4, 15, 9, 26, 5, 35];
    let sorted = sort_ascending(&raw);
    let mut by_std = raw.clone();
    by_std.sort();
    assert_eq!(by_std[3], get_median(&sorted));
}

#[test]
fn sort_keeps_the_input_and_orders_a_copy() {
    let raw: Vec<u64> = vec![3, 1, 2, 3, 0, u64::MAX, 1];
    let sorted = sort_ascending(&raw);
    assert_eq!(vec![3, 1, 2, 3, 0, u64::MAX, 1], raw);
    assert_eq!(vec![0, 1, 1, 2, 3, 3, u64::MAX], sorted);
    assert_eq!(Vec::<u64>::new(), sort_ascending(&Vec::new()));
}

#[test]
fn percentile_interpolates_between_neighbours() {
    let times = vec![5 * MS, 10 * MS, 15 * MS, 20 * MS, 25 * MS];
    assert_eq!(22_500_000, get_nth_percentile(&times, 90, 100));
    assert_eq!(23_750_000, get_nth_percentile(&times, 95, 100));
    assert_eq!(24_750_000, get_nth_percentile(&times, 99, 100));
    assert_eq!(12_500_000, get_nth_percentile(&times, 50, 100));
}

#[test]
fn percentile_below_first_rank_is_the_smallest() {
    let times = vec![10, 20, 30];
    assert_eq!(10, get_nth_percentile(&times, 1, 10));
    assert_eq!(10, get_nth_percentile(&times, 1, 3));
    assert_eq!(15, get_nth_percentile(&times, 1, 2));
}

#[test]
fn percentile_rounds_halves_up() {
    assert_eq!(2, get_nth_percentile(&vec![1, 2], 3, 4));
    assert_eq!(1, get_nth_percentile(&vec![1, 2], 5, 8));
    assert_eq!(2, get_nth_percentile(&vec![1, 2, 2], 1, 2));
}

#[test]
fn full_percentile_is_the_maximum() {
    let times = vec![5 * MS, 10 * MS, 15 * MS, 20 * MS, 25 * MS];
    assert_eq!(25 * MS, get_nth_percentile(&times, 1, 1));
    assert_eq!(25 * MS, get_nth_percentile(&times, 100, 100));
    assert_eq!(9, get_nth_percentile(&vec![9], 7, 7));
    assert_eq!(u64::MAX, get_nth_percentile(&vec![0, u64::MAX], u64::MAX, u64::MAX));
}

#[test]
fn percentile_does_not_go_down_as_the_fraction_goes_up() {
    let times = sort_ascending(&vec![12, 7, 7, 300, 41, 8, 1000, 13, 13, 2]);
    let mut last = 0;
    for num in 1..=200u64 {
        let value = get_nth_percentile(&times, num, 200);
        assert!(last <= value);
        last = value;
    }
    assert_eq!(1000, last);
}

#[test]
fn sum_and_mean() {
    let times = vec![5 * MS, 10 * MS, 15 * MS, 20 * MS, 25 * MS];
    assert_eq!(75_000_000, sum_nanos(&times));
    assert_eq!(15 * MS, mean_nanos(&times));
    assert_eq!(0, sum_nanos(&Vec::new()));
    assert_eq!(1, mean_nanos(&vec![1, 2]));
    assert_eq!(2 * u64::MAX as u128, sum_nanos(&vec![u64::MAX, u64::MAX]));
    assert_eq!(u64::MAX, mean_nanos(&vec![u64::MAX, u64::MAX]));
}

#[test]
fn population_standard_deviation() {
    assert_eq!(2, std_dev_nanos(&vec![2, 4, 4, 4, 5, 5, 7, 9]));
    assert_eq!(7_071_067, std_dev_nanos(&vec![5 * MS, 10 * MS, 15 * MS, 20 * MS, 25 * MS]));
    assert_eq!(0, std_dev_nanos(&vec![1, 2]));
    assert_eq!(0, std_dev_nanos(&vec![42]));
    assert_eq!(1, std_dev_nanos(&vec![1, 3]));
    assert_eq!(1, std_dev_nanos(&vec![0, 3]));
    assert_eq!(9_223_372_036_854_775_807, std_dev_nanos(&vec![0, u64::MAX]));
}

#[test]
fn square_root_rounds_down() {
    assert_eq!(0, floor_sqrt(0));
    assert_eq!(1, floor_sqrt(1));
    assert_eq!(1, floor_sqrt(3));
    assert_eq!(2, floor_sqrt(4));
    assert_eq!(9, floor_sqrt(99));
    assert_eq!(10, floor_sqrt(100));
    assert_eq!(u64::MAX, floor_sqrt(u128::MAX));
}
