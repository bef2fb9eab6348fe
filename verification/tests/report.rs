use rustflow::bench::{available_entry, dataset_values, sum_range_wrapping, unavailable_entry, BackendId, BenchmarkConfig, ScenarioId};
use rustflow::report::BenchmarkReport;

fn sample_report() -> BenchmarkReport {
    BenchmarkReport {
        config: BenchmarkConfig::for_test(),
        entries: vec![
            available_entry(BackendId::Flow, ScenarioId::Reduce, vec![3, 1, 2], 7),
            unavailable_entry(BackendId::CppTaskflow, ScenarioId::Sort, "driver \"x\" missing\\".to_string()),
        ],
    }
}

#[test]
fn report_json_is_exact() {
    let json = sample_report().to_json();
    let expected = [
        "{\"config\":{\"input_len\":256,\"worker_count\":4,\"chunk_size\":32,\"warmup_iterations\":0,",
        "\"measure_iterations\":1,\"seed\":42,\"backends\":[\"flow\",\"threadpool\",\"rayon\",\"cpp-taskflow\"],",
        "\"scenarios\":[\"transform\",\"reduce\",\"find\",\"inclusive-scan\",\"sort\"]},\"entries\":[",
        "{\"backend\":\"flow\",\"scenario\":\"reduce\",\"available\":true,\"reason\":null,\"samples_ns\":[3,1,2],",
        "\"min_ns\":1,\"max_ns\":3,\"median_ns\":2,\"mean_ns\":2,\"checksum\":7},",
        "{\"backend\":\"cpp-taskflow\",\"scenario\":\"sort\",\"available\":false,",
        "\"reason\":\"driver \\\"x\\\" missing\\\\\",\"samples_ns\":[],\"min_ns\":0,\"max_ns\":0,",
        "\"median_ns\":0,\"mean_ns\":0,\"checksum\":0}]}",
    ]
    .concat();
    assert_eq!(json, expected);
}

#[test]
fn benchmark_report_contains_regression_fields() {
    let config = BenchmarkConfig::for_test().with_backends(vec![BackendId::Flow]).with_scenarios(vec![ScenarioId::Reduce]);
    let values = dataset_values(config.input_len, config.seed);
    let checksum = sum_range_wrapping(&values, 0..values.len());
    let report = BenchmarkReport {
        config,
        entries: vec![available_entry(BackendId::Flow, ScenarioId::Reduce, vec![1_500, 1_200], checksum)],
    };
    let json = report.to_json();
    assert!(json.contains("\"median_ns\""));
    assert!(json.contains("\"samples_ns\""));
    assert!(json.contains("\"checksum\""));
}

#[test]
fn empty_report_json() {
    let report = BenchmarkReport {
        config: BenchmarkConfig::for_test().with_backends(vec![]).with_scenarios(vec![ScenarioId::Find]),
        entries: vec![],
    };
    assert_eq!(
        report.to_json(),
        "{\"config\":{\"input_len\":256,\"worker_count\":4,\"chunk_size\":32,\"warmup_iterations\":0,\"measure_iterations\":1,\"seed\":42,\"backends\":[],\"scenarios\":[\"find\"]},\"entries\":[]}"
    );
}

#[test]
fn report_table_matches_column_formatting() {
    let report = sample_report();
    let table = report.to_table();
    let lines: Vec<&str> = table.split('\n').collect();
    assert_eq!(lines.len(), 4);
    assert_eq!(
        lines[0],
        "backend       scenario         status       median(ns)   min(ns)      max(ns)      mean(ns)     checksum"
    );
    assert_eq!(
        lines[1],
        "------------  ---------------  -----------  -----------  -----------  -----------  -----------  -----------"
    );
    let expected_ok = format!(
        "{:<12}  {:<15}  {:<11}  {:>11}  {:>11}  {:>11}  {:>11}  {:>11}",
        "flow", "reduce", "ok", 2u128, 1u128, 3u128, 2u128, 7u64
    );
    assert_eq!(lines[2], expected_ok);
    let expected_unavailable =
        format!("{:<12}  {:<15}  {:<11}  {}", "cpp-taskflow", "sort", "unavailable", "driver \"x\" missing\\");
    assert_eq!(lines[3], expected_unavailable);
}

#[test]
fn report_statuses_are_the_entries() {
    let report = sample_report();
    let statuses = report.statuses();
    assert_eq!(statuses.len(), 2);
    assert!(statuses[0].available);
    assert!(!statuses[1].available);
    assert_eq!(statuses[1].backend, BackendId::CppTaskflow);
}

#[test]
fn wide_values_overflow_their_columns() {
    let report = BenchmarkReport {
        config: BenchmarkConfig::for_test(),
        entries: vec![available_entry(BackendId::ThreadPool, ScenarioId::InclusiveScan, vec![123_456_789_012_345], u64::MAX)],
    };
    let table = report.to_table();
    let last = table.split('\n').last().unwrap();
    let expected = format!(
        "{:<12}  {:<15}  {:<11}  {:>11}  {:>11}  {:>11}  {:>11}  {:>11}",
        "threadpool", "inclusive-scan", "ok", 123_456_789_012_345u128, 123_456_789_012_345u128, 123_456_789_012_345u128,
        123_456_789_012_345u128, u64::MAX
    );
    assert_eq!(last, expected);
}
