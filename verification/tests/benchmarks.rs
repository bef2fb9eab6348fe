use rustflow::bench::{concat_chunks, least_found, merge_all, total_of_sums};
use rustflow::bench::{
    available_entry, checksum_slice, chunk_offsets, chunk_ranges, dataset_values, find_value, median, merge_round,
    merge_sorted, scan_chunk_with_offset, split_chunks, sum_range_wrapping, transform_chunk, transform_value,
    unavailable_entry, BackendId, BenchmarkConfig, ScenarioId, CHECKSUM_OFFSET, FIND_NEEDLE,
};
use rustflow::compare::{auto_chunk_size_for_workers, checksum_i32, checksum_u8, decimal_points, pow2_points, queens_ok, stepped_points, wavefront_points, ShuffleRng};

#[test]
fn benchmark_registry_exposes_required_backends() {
    let backends = BackendId::all();

    assert!(backends.contains(&BackendId::Flow));
    assert!(backends.contains(&BackendId::ThreadPool));
    assert!(backends.contains(&BackendId::Rayon));
    assert!(backends.contains(&BackendId::CppTaskflow));
}

#[test]
fn benchmark_registry_exposes_required_scenarios() {
    let scenarios = ScenarioId::all();

    assert!(scenarios.contains(&ScenarioId::Transform));
    assert!(scenarios.contains(&ScenarioId::Reduce));
    assert!(scenarios.contains(&ScenarioId::Find));
    assert!(scenarios.contains(&ScenarioId::InclusiveScan));
    assert!(scenarios.contains(&ScenarioId::Sort));
}

#[test]
fn names_of_backends_and_scenarios() {
    assert_eq!(BackendId::CppTaskflow.as_str(), "cpp-taskflow");
    assert_eq!(BackendId::ThreadPool.as_str(), "threadpool");
    assert_eq!(ScenarioId::InclusiveScan.as_str(), "inclusive-scan");
}

#[test]
fn config_builders_clamp_to_one() {
    let config = BenchmarkConfig::for_test();
    assert_eq!(config.input_len, 256);
    assert_eq!(config.worker_count, 4);
    assert_eq!(config.chunk_size, 32);
    assert_eq!(config.warmup_iterations, 0);
    assert_eq!(config.measure_iterations, 1);
    let config = config.with_worker_count(0).with_chunk_size(0).with_measure_iterations(0).with_seed(7);
    assert_eq!(config.worker_count, 1);
    assert_eq!(config.chunk_size, 1);
    assert_eq!(config.measure_iterations, 1);
    assert_eq!(config.seed, 7);
    assert_eq!(BenchmarkConfig::defaults(8).worker_count, 8);
    assert_eq!(BenchmarkConfig::defaults(8).input_len, 65_536);
}

#[test]
fn checksum_of_values() {
    assert_eq!(checksum_slice(&[]), CHECKSUM_OFFSET);
    let one = CHECKSUM_OFFSET.wrapping_mul(1_099_511_628_211) ^ 5;
    assert_eq!(checksum_slice(&[5]), one);
    assert_eq!(checksum_u8(&[5]), CHECKSUM_OFFSET.wrapping_mul(1_099_511_628_211).wrapping_add(5));
    assert_eq!(checksum_i32(&[-1]), CHECKSUM_OFFSET.wrapping_mul(1_099_511_628_211).wrapping_add(0xffff_ffff));
}

#[test]
fn transform_value_rotates_and_adds() {
    assert_eq!(transform_value(1), 128 + 0x9e37_79b9);
    assert_eq!(transform_value(u64::MAX), u64::MAX.wrapping_add(0x9e37_79b9));
    assert_eq!(transform_value(1u64 << 63), 64 + 0x9e37_79b9);
    assert_eq!(transform_chunk(&[1, 2, 3], 1..3), vec![transform_value(2), transform_value(3)]);
}

#[test]
fn dataset_plants_the_needle_three_quarters_in() {
    let values = dataset_values(256, 42);
    assert_eq!(values.len(), 256);
    assert_eq!(values[192], FIND_NEEDLE);
    assert_eq!(values.iter().filter(|v| **v == FIND_NEEDLE).count(), 1);
    assert_eq!(find_value(&values, 0..256, FIND_NEEDLE), Some(192));
    assert_eq!(find_value(&values, 0..192, FIND_NEEDLE), None);
    let mut state: u64 = 42 | 1;
    state = state.wrapping_mul(6_364_136_223_846_793_005).wrapping_add(1_442_695_040_888_963_407);
    assert_eq!(values[0], state ^ (state >> 33));
}

#[test]
fn chunks_cover_the_input() {
    assert_eq!(chunk_ranges(10, 4), vec![0..4, 4..8, 8..10]);
    assert_eq!(chunk_ranges(0, 4), Vec::<std::ops::Range<usize>>::new());
    assert_eq!(split_chunks(vec![1, 2, 3, 4, 5], 2), vec![vec![1, 2], vec![3, 4], vec![5]]);
    assert_eq!(split_chunks(vec![1, 2], 0), Vec::<Vec<u64>>::new());
}

#[test]
fn merging_sorted_chunks() {
    assert_eq!(merge_sorted(vec![1, 4, 9], vec![2, 3, 10, 11]), vec![1, 2, 3, 4, 9, 10, 11]);
    assert_eq!(merge_round(vec![vec![3], vec![1], vec![2]]), vec![vec![1, 3], vec![2]]);
    let mut chunks = vec![vec![5], vec![1], vec![4], vec![2], vec![3]];
    while chunks.len() > 1 {
        chunks = merge_round(chunks);
    }
    assert_eq!(chunks, vec![vec![1, 2, 3, 4, 5]]);
}

#[test]
fn wrapping_scan_pieces() {
    assert_eq!(sum_range_wrapping(&[1, 2, u64::MAX], 0..3), 2);
    assert_eq!(chunk_offsets(&[3, 4, 5]), vec![0, 3, 7]);
    assert_eq!(scan_chunk_with_offset(&[1, 2, 3], 1..3, 10), vec![12, 15]);
}

#[test]
fn entry_statistics() {
    let entry = available_entry(BackendId::Rayon, ScenarioId::Sort, vec![30, 10, 20, 40], 9);
    assert_eq!(entry.min_ns, 10);
    assert_eq!(entry.max_ns, 40);
    assert_eq!(entry.mean_ns, 25);
    assert_eq!(entry.median_ns, 25);
    assert_eq!(entry.checksum, 9);
    assert!(entry.available);
    let empty = available_entry(BackendId::Flow, ScenarioId::Find, vec![], 0);
    assert_eq!(empty.median_ns, 0);
    assert_eq!(median(&[5, 1, 3]), 3);
    assert_eq!(median(&[u128::MAX, u128::MAX - 2]), u128::MAX - 1);
    let missing = unavailable_entry(BackendId::CppTaskflow, ScenarioId::Reduce, "no compiler".to_string());
    assert!(!missing.available);
    assert_eq!(missing.reason.as_deref(), Some("no compiler"));
}

#[test]
fn report_points() {
    let points = pow2_points(2, 4);
    assert_eq!(points.iter().map(|p| p.value).collect::<Vec<_>>(), vec![4, 8, 16]);
    assert_eq!(points[2].label, "16");
    let stepped = stepped_points(5, 20, 5);
    assert_eq!(stepped.iter().map(|p| p.value).collect::<Vec<_>>(), vec![5, 10, 15, 20]);
    let decimal = decimal_points(3);
    assert_eq!(decimal.iter().map(|p| p.label.clone()).collect::<Vec<_>>(), vec!["10", "100", "1000"]);
    let wave = wavefront_points();
    assert_eq!(wave.iter().map(|p| p.value).collect::<Vec<_>>(), vec![8, 16, 32, 64, 128, 256]);
    assert_eq!(wave[5].label, "1024");
    assert_eq!(auto_chunk_size_for_workers(100, 4), 7);
    assert_eq!(auto_chunk_size_for_workers(0, 0), 1);
}

#[test]
fn shuffle_keeps_the_elements() {
    let mut rng = ShuffleRng::new(42);
    let mut values: Vec<u32> = (0..50).collect();
    rng.shuffle(&mut values);
    let mut sorted = values.clone();
    sorted.sort_unstable();
    assert_eq!(sorted, (0..50).collect::<Vec<u32>>());
    let mut a = ShuffleRng::new(2);
    assert_eq!(a.state, 3);
    assert_eq!(a.next_u64(), 3u64.wrapping_mul(6_364_136_223_846_793_005).wrapping_add(1_442_695_040_888_963_407));
}

#[test]
fn queens_placement_checks() {
    assert!(queens_ok(&[1, 3, 0, 2], 4));
    assert!(!queens_ok(&[0, 1], 2));
    assert!(!queens_ok(&[0, 0], 2));
    assert!(queens_ok(&[0, 0], 1));
}

#[test]
fn shuffle_draws_from_the_back() {
    let mut rng = ShuffleRng::new(5);
    let mut values: Vec<u32> = (0..6).collect();
    rng.shuffle(&mut values);
    let mut state: u64 = 5;
    let mut expected: Vec<u32> = (0..6).collect();
    for index in (1..6usize).rev() {
        state = state.wrapping_mul(6_364_136_223_846_793_005).wrapping_add(1_442_695_040_888_963_407);
        let choice = (state % (index as u64 + 1)) as usize;
        expected.swap(index, choice);
    }
    assert_eq!(values, expected);
    assert_eq!(rng.state, state);
    let mut single = vec![1u32];
    let before = rng.state;
    rng.shuffle(&mut single);
    assert_eq!(rng.state, before);
}

#[test]
fn thread_pool_combines_chunk_results() {
    assert_eq!(total_of_sums(&[u64::MAX, 2, 3]), 4);
    assert_eq!(total_of_sums(&[]), 0);
    assert_eq!(least_found(&[None, Some(9), Some(4), None]), 4);
    assert_eq!(least_found(&[None, None]), u64::MAX);
    assert_eq!(concat_chunks(&vec![vec![1, 2], vec![], vec![3]]), vec![1, 2, 3]);
    assert_eq!(merge_all(vec![vec![1, 5], vec![2, 3], vec![0, 9], vec![4]]), vec![0, 1, 2, 3, 4, 5, 9]);
    assert_eq!(merge_all(vec![]), Vec::<u64>::new());
}

#[test]
fn merge_all_merges_unsorted_chunks_round_by_round() {
    assert_eq!(merge_all(vec![vec![3, 1], vec![2], vec![0]]), vec![0, 2, 3, 1]);
    assert_eq!(merge_all(vec![vec![5, 4]]), vec![5, 4]);
}
