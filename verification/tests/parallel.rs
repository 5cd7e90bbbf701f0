use rand::Rng;
use timsort::parallel::{
    parallel_merge_pass, parallel_merge_runs, parallel_sort_runs, parallel_tim_sort,
    parallel_tim_sort_with_run,
};
use timsort::scheduler::{merge_pass, sort_runs, tim_sort, RUN};
use timsort::step::Step;

fn random_values(len: usize) -> Vec<i32> {
    let mut rng = rand::thread_rng();
    (0..len).map(|_| rng.gen_range(0..10_000)).collect()
}

#[test]
fn step_sort_run_sorts_a_chunk() {
    let mut v = vec![4, 2, 9, 2, 1];
    Step::SortRun.apply(&mut v);
    assert_eq!(v, vec![1, 2, 2, 4, 9]);
    let mut empty: Vec<i32> = Vec::new();
    Step::SortRun.apply(&mut empty);
    assert!(empty.is_empty());
}

#[test]
fn step_merge_merges_the_two_parts_of_a_chunk() {
    let mut v = vec![2, 6, 8, 1, 7];
    Step::Merge { size: 3 }.apply(&mut v);
    assert_eq!(v, vec![1, 2, 6, 7, 8]);
}

#[test]
fn step_merge_leaves_a_short_chunk_alone() {
    let mut v = vec![3, 1, 2];
    Step::Merge { size: 3 }.apply(&mut v);
    assert_eq!(v, vec![3, 1, 2]);
    Step::Merge { size: 4 }.apply(&mut v);
    assert_eq!(v, vec![3, 1, 2]);
    Step::Merge { size: 0 }.apply(&mut v);
    assert_eq!(v, vec![3, 1, 2]);
}

#[test]
fn parallel_run_length_two_pass_by_pass() {
    let mut v = vec![5, 3, 8, 1, 9, 2];
    parallel_sort_runs(&mut v, 2);
    assert_eq!(v, vec![3, 5, 1, 8, 2, 9]);
    parallel_merge_pass(&mut v, 2);
    assert_eq!(v, vec![1, 3, 5, 8, 2, 9]);
    parallel_merge_pass(&mut v, 4);
    assert_eq!(v, vec![1, 2, 3, 5, 8, 9]);
}

#[test]
fn parallel_passes_match_sequential_passes() {
    let input = random_values(1000);
    let mut a = input.clone();
    let mut b = input;
    sort_runs(&mut a, 7);
    parallel_sort_runs(&mut b, 7);
    assert_eq!(a, b);
    let mut size = 7;
    while size < a.len() {
        merge_pass(&mut a, size);
        parallel_merge_pass(&mut b, size);
        assert_eq!(a, b, "size {}", size);
        size *= 2;
    }
    assert!(a.windows(2).all(|w| w[0] <= w[1]));
}

#[test]
fn parallel_merge_pass_with_a_width_past_half_the_address_space() {
    let mut v = vec![1, 5, 2];
    parallel_merge_pass(&mut v, usize::MAX);
    assert_eq!(v, vec![1, 5, 2]);
    parallel_merge_pass(&mut v, usize::MAX / 2 + 1);
    assert_eq!(v, vec![1, 5, 2]);
}

#[test]
fn parallel_merge_runs_counts_its_passes() {
    let mut v = vec![3, 5, 1, 8, 2, 9];
    assert_eq!(parallel_merge_runs(&mut v, 2), 2);
    assert_eq!(v, vec![1, 2, 3, 5, 8, 9]);
    let mut w = vec![0; RUN + 1];
    assert_eq!(parallel_merge_runs(&mut w, RUN), 1);
    let mut x = vec![0; RUN];
    assert_eq!(parallel_merge_runs(&mut x, RUN), 0);
}

#[test]
fn parallel_sorts_nine_elements_within_one_run() {
    let mut v = vec![10, 3, 2, 19, 7, 15, 23, 13, 1];
    parallel_tim_sort(&mut v);
    assert_eq!(v, vec![1, 2, 3, 7, 10, 13, 15, 19, 23]);
}

#[test]
fn parallel_boundary_lengths() {
    let mut empty: Vec<i32> = Vec::new();
    parallel_tim_sort(&mut empty);
    assert!(empty.is_empty());
    let mut one = vec![7];
    parallel_tim_sort(&mut one);
    assert_eq!(one, vec![7]);
    for len in [RUN, RUN + 1, 2 * RUN, 2 * RUN + 1] {
        let input = random_values(len);
        let mut v = input.clone();
        parallel_tim_sort(&mut v);
        let mut expected = input;
        expected.sort();
        assert_eq!(v, expected, "len {}", len);
    }
}

#[test]
fn parallel_and_sequential_sorts_agree() {
    for len in [0, 1, 2, 31, 32, 33, 64, 65, 1000, 5000] {
        let input = random_values(len);
        let mut a = input.clone();
        let mut b = input;
        tim_sort(&mut a);
        parallel_tim_sort(&mut b);
        assert_eq!(a, b, "len {}", len);
    }
}

#[test]
fn parallel_sort_with_other_run_lengths() {
    let input = random_values(2000);
    let mut expected = input.clone();
    expected.sort();
    for run in [1, 2, 5, 32, 1999, 2000, 2001, usize::MAX] {
        let mut v = input.clone();
        parallel_tim_sort_with_run(&mut v, run);
        assert_eq!(v, expected, "run {}", run);
    }
}

#[test]
fn parallel_sorting_twice_is_sorting_once() {
    let mut once = random_values(3000);
    parallel_tim_sort(&mut once);
    let mut twice = once.clone();
    parallel_tim_sort(&mut twice);
    assert_eq!(twice, once);
}

#[test]
fn four_workers_agree_with_the_sequential_sort_over_a_hundred_trials() {
    let pool = rayon::ThreadPoolBuilder::new().num_threads(4).build().unwrap();
    for trial in 0..100 {
        let input = random_values(10_000);
        let mut sequential = input.clone();
        let mut parallel = input;
        tim_sort(&mut sequential);
        pool.install(|| parallel_tim_sort(&mut parallel));
        assert_eq!(parallel, sequential, "trial {}", trial);
    }
}
