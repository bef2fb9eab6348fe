use rayon::slice::ParallelSliceMut;
use rustflow::algorithms::{combine_partials, accumulate_chunk, earliest, parallel_find, parallel_reduce, parallel_transform};
use rustflow::heap::heapsort_by_less;
use rustflow::order::{is_equal_by_less, ordering_from_is_less, sort_slice_by_less};
use rustflow::parallel_for::ParallelForOptions;
use rustflow::quicksort::{parallel_sort_by_less, quicksort_by_less, quicksort_step_by_less, QuicksortStep};
use rustflow::scan::{blocked_exclusive_scan, blocked_inclusive_scan, parallel_exclusive_scan, parallel_inclusive_scan, sequential_exclusive_scan, sequential_inclusive_scan};
use rustflow::sort::{break_patterns_by_less, choose_pivot_index_by_less, initial_sort_bad_partition_budget, insertion_sort_by_less, partial_insertion_sort_by_less, partition_by_less, sort3_by_less};

const PARALLEL_SORT_TEST_LEN: usize = 200_000;
const WORKERS: usize = 4;

fn parallel_sort(input: Vec<i32>, options: ParallelForOptions) -> Vec<i32> {
    parallel_sort_by_less(input, WORKERS, options, &|left: &i32, right: &i32| left < right)
}

fn assert_parallel_sort_matches_oracles(input: Vec<i32>, options: ParallelForOptions) {
    let mut expected_std = input.clone();
    expected_std.sort_unstable();

    let mut expected_rayon = input.clone();
    expected_rayon.par_sort_unstable();

    let output = parallel_sort(input, options);

    assert_eq!(output, expected_std);
    assert_eq!(output, expected_rayon);
}

fn assert_descending_sort_matches_oracles(input: Vec<i32>, options: ParallelForOptions) {
    let mut expected_std = input.clone();
    expected_std.sort_unstable_by(|left, right| right.cmp(left));

    let mut expected_rayon = input.clone();
    expected_rayon.par_sort_unstable_by(|left, right| right.cmp(left));

    let output = parallel_sort_by_less(input, WORKERS, options, &|left: &i32, right: &i32| right < left);

    assert_eq!(output, expected_std);
    assert_eq!(output, expected_rayon);
}

#[test]
fn parallel_find_returns_first_matching_index() {
    let input: Vec<usize> = vec![9, 7, 5, 4, 8, 4, 2, 4, 1];
    let found = parallel_find(&input, 4, ParallelForOptions::default().with_chunk_size(2), &|value: &usize| *value == 4);
    assert_eq!(found, Some(3));
}

#[test]
fn parallel_find_returns_none_when_not_found() {
    let input: Vec<usize> = (0..64).collect();
    let found = parallel_find(&input, 3, ParallelForOptions::default().with_chunk_size(5), &|value: &usize| *value == 128);
    assert_eq!(found, None);
}

#[test]
fn parallel_inclusive_scan_matches_sequential_result() {
    let input: Vec<usize> = (1..=32).collect();
    let output = parallel_inclusive_scan(&input, WORKERS, &|left: usize, right: usize| left + right);
    let mut running = 0usize;
    let expected = input
        .iter()
        .map(|value| {
            running += value;
            running
        })
        .collect::<Vec<_>>();
    assert_eq!(output, expected);
}

#[test]
fn parallel_exclusive_scan_matches_sequential_result() {
    let input: Vec<usize> = (1..=16).collect();
    let output = parallel_exclusive_scan(&input, WORKERS, 10usize, &|left: usize, right: usize| left + right);
    let mut running = 10usize;
    let expected = input
        .iter()
        .map(|value| {
            let current = running;
            running += value;
            current
        })
        .collect::<Vec<_>>();
    assert_eq!(output, expected);
}

#[test]
fn parallel_inclusive_scan_large_matches_sequential_result() {
    let input: Vec<u64> = (1..=20_000).collect();
    let output = parallel_inclusive_scan(&input, WORKERS, &|left: u64, right: u64| left + right);
    let mut running = 0u64;
    let expected = input
        .iter()
        .map(|value| {
            running += value;
            running
        })
        .collect::<Vec<_>>();
    assert_eq!(output, expected);
}

#[test]
fn parallel_exclusive_scan_large_matches_sequential_result() {
    let input: Vec<u64> = (1..=20_000).collect();
    let output = parallel_exclusive_scan(&input, WORKERS, 7u64, &|left: u64, right: u64| left + right);
    let mut running = 7u64;
    let expected = input
        .iter()
        .map(|value| {
            let current = running;
            running += value;
            current
        })
        .collect::<Vec<_>>();
    assert_eq!(output, expected);
}

#[test]
fn blocked_scans_offset_later_blocks_by_earlier_totals() {
    let input: Vec<u64> = vec![1, 2, 3, 4, 5];
    let blocks = vec![0..2, 2..5];
    let add = |left: u64, right: u64| left + right;
    assert_eq!(blocked_inclusive_scan(&input, &blocks, &add), vec![1, 3, 6, 10, 15]);
    assert_eq!(blocked_exclusive_scan(&input, &blocks, 100, &add), vec![100, 101, 103, 106, 110]);
    assert_eq!(sequential_inclusive_scan(&input, &add), vec![1, 3, 6, 10, 15]);
    assert_eq!(sequential_exclusive_scan(&input, 100, &add), vec![100, 101, 103, 106, 110]);
}

#[test]
fn blocked_scan_with_non_associative_operator_is_blockwise() {
    // subtraction is not associative: the blocked result differs from the
    // sequential one exactly as the blockwise formula says
    let input: Vec<i64> = vec![10, 1, 2, 3];
    let blocks = vec![0..2, 2..4];
    let sub = |left: i64, right: i64| left - right;
    // block 0: 10, 9; block 1 local: 2, -1; offset by total 9: 9-2=7, 9-(-1)=10
    assert_eq!(blocked_inclusive_scan(&input, &blocks, &sub), vec![10, 9, 7, 10]);
    assert_eq!(sequential_inclusive_scan(&input, &sub), vec![10, 9, 7, 4]);
}

#[test]
fn parallel_sort_matches_std_sort() {
    let input = vec![9, 3, 7, 1, 8, 2, 6, 5, 4, 0, 7, 3, 9, 2];
    let mut expected = input.clone();
    expected.sort_unstable();
    let output = parallel_sort(input, ParallelForOptions::default().with_chunk_size(3));
    assert_eq!(output, expected);
}

#[test]
fn parallel_sort_by_supports_custom_order() {
    let input = vec![1, 4, 2, 8, 5, 7, 3, 6];
    let mut expected = input.clone();
    expected.sort_unstable_by(|left, right| right.cmp(left));
    let output = parallel_sort_by_less(input, WORKERS, ParallelForOptions::default().with_chunk_size(2), &|left: &i32, right: &i32| right < left);
    assert_eq!(output, expected);
}

#[test]
fn parallel_sort_large_matches_std_sort() {
    let input = (0..50_000)
        .rev()
        .map(|index| ((index as u64 * 48_271 + 1_234_567) % 100_003) as i32)
        .collect::<Vec<_>>();
    let mut expected = input.clone();
    expected.sort_unstable();
    let output = parallel_sort(input, ParallelForOptions::default());
    assert_eq!(output, expected);
}

#[test]
fn parallel_sort_preserves_sorted_input_on_parallel_path() {
    let input = (0..PARALLEL_SORT_TEST_LEN as i32).collect::<Vec<_>>();
    assert_parallel_sort_matches_oracles(input, ParallelForOptions::default());
}

#[test]
fn parallel_sort_handles_reverse_sorted_input_on_parallel_path() {
    let input = (0..PARALLEL_SORT_TEST_LEN as i32).rev().collect::<Vec<_>>();
    assert_parallel_sort_matches_oracles(input, ParallelForOptions::default());
}

#[test]
fn parallel_sort_handles_duplicate_heavy_input_on_parallel_path() {
    let input = (0..PARALLEL_SORT_TEST_LEN).map(|index| (index % 11) as i32 - 5).collect::<Vec<_>>();
    assert_parallel_sort_matches_oracles(input, ParallelForOptions::default());
}

#[test]
fn parallel_sort_handles_all_equal_input_on_parallel_path() {
    let input = vec![42; PARALLEL_SORT_TEST_LEN];
    assert_parallel_sort_matches_oracles(input, ParallelForOptions::default());
}

#[test]
fn parallel_sort_handles_sorted_duplicate_runs_on_parallel_path() {
    let input = (0..PARALLEL_SORT_TEST_LEN).map(|index| (index / 97) as i32).collect::<Vec<_>>();
    assert_parallel_sort_matches_oracles(input, ParallelForOptions::default());
}

#[test]
fn parallel_sort_handles_nearly_sorted_input_on_parallel_path() {
    let mut input = (0..PARALLEL_SORT_TEST_LEN as i32).collect::<Vec<_>>();
    for offset in (0..PARALLEL_SORT_TEST_LEN.saturating_sub(17)).step_by(4096) {
        input.swap(offset, offset + 17);
    }
    assert_parallel_sort_matches_oracles(input, ParallelForOptions::default());
}

#[test]
fn parallel_sort_by_matches_descending_oracles_on_parallel_path() {
    let input = (0..PARALLEL_SORT_TEST_LEN).map(|index| ((index as i32 * 37) % 10_007) - 5_000).collect::<Vec<_>>();
    assert_descending_sort_matches_oracles(input, ParallelForOptions::default());
}

#[test]
fn parallel_sort_by_matches_descending_oracles_for_duplicate_heavy_input() {
    let input = (0..PARALLEL_SORT_TEST_LEN).map(|index| (index % 9) as i32).collect::<Vec<_>>();
    assert_descending_sort_matches_oracles(input, ParallelForOptions::default());
}

#[test]
fn quicksort_small_cutoff_sorts_and_splits() {
    let less = |left: &u32, right: &u32| left < right;
    let mut values: Vec<u32> = (0..500u32).map(|i| (i * 7919) % 503).collect();
    let mut expected = values.clone();
    expected.sort_unstable();
    let budget = initial_sort_bad_partition_budget(values.len());
    quicksort_by_less(&mut values, None, budget, 16, &less);
    assert_eq!(values, expected);

    let mut values: Vec<u32> = (0..100u32).rev().collect();
    match quicksort_step_by_less(&mut values, None, 10, 8, &less) {
        QuicksortStep::Split { left_len, right_begin, budget } => {
            assert!(left_len < right_begin);
            assert!(budget >= 1 && budget <= 10);
            let pivot = values[left_len];
            assert!(values[..left_len].iter().all(|v| *v < pivot));
            assert!(values[right_begin..].iter().all(|v| *v > pivot));
        }
        QuicksortStep::Sorted => {
            let mut sorted = values.clone();
            sorted.sort_unstable();
            assert_eq!(values, sorted);
        }
    }
}

#[test]
fn heapsort_and_insertion_sort_sort() {
    let less = |left: &i64, right: &i64| left < right;
    let mut a: Vec<i64> = vec![5, -1, 3, 3, 9, 0, -7, 2];
    heapsort_by_less(&mut a, &less);
    assert_eq!(a, vec![-7, -1, 0, 2, 3, 3, 5, 9]);
    let mut b: Vec<i64> = vec![5, -1, 3, 3, 9, 0, -7, 2];
    insertion_sort_by_less(&mut b, &less);
    assert_eq!(b, vec![-7, -1, 0, 2, 3, 3, 5, 9]);
    let mut c: Vec<i64> = (0..40).rev().collect();
    sort_slice_by_less(&mut c, &less);
    assert_eq!(c, (0..40).collect::<Vec<i64>>());
}

#[test]
fn partial_insertion_sort_gives_up_after_few_moves() {
    let less = |left: &i32, right: &i32| left < right;
    let mut nearly: Vec<i32> = vec![1, 2, 4, 3, 5, 6];
    assert!(partial_insertion_sort_by_less(&mut nearly, &less));
    assert_eq!(nearly, vec![1, 2, 3, 4, 5, 6]);
    let mut reversed: Vec<i32> = (0..20).rev().collect();
    assert!(!partial_insertion_sort_by_less(&mut reversed, &less));
}

#[test]
fn partition_splits_around_the_pivot() {
    let less = |left: &i32, right: &i32| left < right;
    let mut values = vec![5, 1, 9, 5, 3, 7, 5];
    let result = partition_by_less(&mut values, 0, &less);
    assert_eq!(result.left_len, 2);
    assert_eq!(result.equal_len, 3);
    assert!(!result.already_partitioned);
    assert!(values[..2].iter().all(|v| *v < 5));
    assert!(values[2..5].iter().all(|v| *v == 5));
    assert!(values[5..].iter().all(|v| *v > 5));
}

#[test]
fn comparisons_derived_from_less() {
    let less = |left: &i32, right: &i32| left < right;
    assert_eq!(ordering_from_is_less(&less, &1, &2), std::cmp::Ordering::Less);
    assert_eq!(ordering_from_is_less(&less, &2, &1), std::cmp::Ordering::Greater);
    assert_eq!(ordering_from_is_less(&less, &2, &2), std::cmp::Ordering::Equal);
    assert!(is_equal_by_less(&3, &3, &less));
    assert!(!is_equal_by_less(&3, &4, &less));
    assert_eq!(initial_sort_bad_partition_budget(0), 0);
    assert_eq!(initial_sort_bad_partition_budget(1), 0);
    assert_eq!(initial_sort_bad_partition_budget(1024), 20);
    assert_eq!(initial_sort_bad_partition_budget(1025), 20);
}

#[test]
fn parallel_transform_produces_expected_values() {
    let input: Vec<usize> = (0..128).collect();
    let output = parallel_transform(&input, WORKERS, &|value: &usize| value * 2);
    let expected = input.iter().map(|value| value * 2).collect::<Vec<_>>();
    assert_eq!(output, expected);
}

#[test]
fn parallel_transform_large_uses_blocks() {
    let input: Vec<u64> = (0..40_000).collect();
    let output = parallel_transform(&input, WORKERS, &|value: &u64| value + 1);
    assert_eq!(output, (1..=40_000).collect::<Vec<u64>>());
}

#[test]
fn parallel_reduce_produces_expected_sum() {
    let input: Vec<usize> = (1..=1000).collect();
    let sum = parallel_reduce(&input, WORKERS, 0usize, &|left: usize, right: usize| left + right);
    assert_eq!(sum, input.iter().copied().sum());
}

#[test]
fn parallel_reduce_returns_init_for_empty_input() {
    let input: Vec<usize> = Vec::new();
    let sum = parallel_reduce(&input, 2, 42usize, &|left: usize, right: usize| left + right);
    assert_eq!(sum, 42);
}

#[test]
fn parallel_reduce_large_folds_blocks_into_init() {
    let input: Vec<u64> = (1..=50_000).collect();
    let sum = parallel_reduce(&input, WORKERS, 5u64, &|left: u64, right: u64| left + right);
    assert_eq!(sum, 5 + 50_000 * 50_001 / 2);
}

#[test]
fn dynamic_reduction_pieces() {
    let input: Vec<u64> = vec![1, 2, 3, 4, 5, 6];
    let add = |left: u64, right: u64| left + right;
    let slot = accumulate_chunk(None, &input, 0..3, &add);
    assert_eq!(slot, Some(6));
    let slot = accumulate_chunk(slot, &input, 3..5, &add);
    assert_eq!(slot, Some(15));
    assert_eq!(accumulate_chunk(slot, &input, 5..5, &add), Some(15));
    assert_eq!(combine_partials(100, &vec![Some(15), None, Some(6)], &add), 121);
    assert_eq!(earliest(Some(4), Some(2)), Some(2));
    assert_eq!(earliest(None, Some(2)), Some(2));
    assert_eq!(earliest(None, None), None);
}

#[test]
fn partial_insertion_sort_finishes_with_at_most_eight_inversions() {
    let less = |left: &i32, right: &i32| left < right;
    // [8, 0, 1, ..., 7] has exactly eight inversions: it finishes sorted.
    let mut eight: Vec<i32> = vec![8, 0, 1, 2, 3, 4, 5, 6, 7];
    assert!(partial_insertion_sort_by_less(&mut eight, &less));
    assert_eq!(eight, (0..9).collect::<Vec<i32>>());
    // [9, 0, 1, ..., 8] has nine: it gives up after nine moves, sorted.
    let mut nine: Vec<i32> = vec![9, 0, 1, 2, 3, 4, 5, 6, 7, 8];
    assert!(!partial_insertion_sort_by_less(&mut nine, &less));
    // [2, 1, 10, 9, 8, 7, 6] has 1 + 10 = 11 inversions: it gives up with
    // two of them left.
    let mut eleven: Vec<i32> = vec![2, 1, 10, 9, 8, 7, 6];
    assert!(!partial_insertion_sort_by_less(&mut eleven, &less));
    let left: usize = (0..eleven.len())
        .map(|j| (0..j).filter(|&i| eleven[j] < eleven[i]).count())
        .sum();
    assert_eq!(left, 2);
}

#[test]
fn sort3_puts_the_median_in_the_middle() {
    let less = |left: &i32, right: &i32| left < right;
    let mut values = vec![9, 0, 5, 0, 1];
    sort3_by_less(&mut values, 0, 2, 4, &less);
    assert_eq!(values, vec![1, 0, 5, 0, 9]);
    let mut same = vec![3, 3, 3];
    sort3_by_less(&mut same, 2, 1, 0, &less);
    assert_eq!(same, vec![3, 3, 3]);
}

#[test]
fn choose_pivot_moves_the_median_of_three_to_the_front() {
    let less = |left: &i32, right: &i32| left < right;
    let mut values = vec![7, 1, 4, 2, 9];
    assert_eq!(choose_pivot_index_by_less(&mut values, &less), 0);
    // middle (4), first (7), last (9) ordered: the median 7 lands at the front.
    assert_eq!(values, vec![7, 1, 4, 2, 9]);
    let mut other = vec![4, 1, 9, 2, 7];
    choose_pivot_index_by_less(&mut other, &less);
    assert_eq!(other, vec![7, 1, 4, 2, 9]);
}

#[test]
fn break_patterns_swaps_a_quarter_in_on_long_sides() {
    let mut values: Vec<u32> = (0..60).collect();
    break_patterns_by_less(&mut values, 30, 2);
    let mut expected: Vec<u32> = (0..60).collect();
    // left side 0..30: q = 7
    expected.swap(0, 7);
    expected.swap(29, 30 - 7);
    // right side 32..60 (28 elements): q = 7
    expected.swap(32, 32 + 7);
    expected.swap(59, 60 - 7);
    assert_eq!(values, expected);
    let mut short: Vec<u32> = (0..10).collect();
    break_patterns_by_less(&mut short, 5, 0);
    assert_eq!(short, (0..10).collect::<Vec<u32>>());
}

#[test]
fn dynamic_reduction_is_independent_of_claims() {
    let add = |l: u64, r: u64| l + r;
    let input: Vec<u64> = (1..=10).collect();
    // worker 0 claims chunks [0..3) and [6..9), worker 1 claims [3..6) and [9..10)
    let mut first = accumulate_chunk(None, &input, 0..3, &add);
    first = accumulate_chunk(first, &input, 6..9, &add);
    let mut second = accumulate_chunk(None, &input, 3..6, &add);
    second = accumulate_chunk(second, &input, 9..10, &add);
    let idle = accumulate_chunk(None, &input, 4..4, &add);
    assert_eq!(combine_partials(100, &vec![first, idle, second], &add), 155);
}
