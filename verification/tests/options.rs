use rustflow::bench::{BackendId, OutputFormat, ScenarioId};
use rustflow::options::{help_text, BenchmarkError};

#[test]
fn backend_lists_parse_trimmed_items() {
    let parsed = BackendId::parse_list("flow, rayon ,\tcpp-taskflow,threadpool").ok().unwrap();
    assert_eq!(parsed, vec![BackendId::Flow, BackendId::Rayon, BackendId::CppTaskflow, BackendId::ThreadPool]);
    let single = BackendId::parse_list("flow").ok().unwrap();
    assert_eq!(single, vec![BackendId::Flow]);
}

#[test]
fn backend_lists_report_the_first_unknown_item() {
    let error = BackendId::parse_list("flow, gpu ,cuda").err().unwrap();
    assert_eq!(error.to_display_string(), "unknown backend `gpu`");
    let empty = BackendId::parse_list("").err().unwrap();
    assert_eq!(empty.to_display_string(), "unknown backend ``");
    let trailing = BackendId::parse_list("rayon,").err().unwrap();
    assert_eq!(trailing.to_display_string(), "unknown backend ``");
    let case = BackendId::parse_list("Flow").err().unwrap();
    assert_eq!(case.to_display_string(), "unknown backend `Flow`");
}

#[test]
fn scenario_lists_parse_and_report() {
    let parsed = ScenarioId::parse_list("sort,inclusive-scan , find,reduce,transform").ok().unwrap();
    assert_eq!(
        parsed,
        vec![ScenarioId::Sort, ScenarioId::InclusiveScan, ScenarioId::Find, ScenarioId::Reduce, ScenarioId::Transform]
    );
    let error = ScenarioId::parse_list("sort,scan").err().unwrap();
    assert_eq!(error.to_display_string(), "unknown scenario `scan`");
}

#[test]
fn output_formats_parse_exactly() {
    assert_eq!(OutputFormat::parse("json").ok().unwrap(), OutputFormat::Json);
    assert_eq!(OutputFormat::parse("table").ok().unwrap(), OutputFormat::Table);
    let error = OutputFormat::parse(" json").err().unwrap();
    assert_eq!(error.to_display_string(), "unknown output format ` json`");
}

#[test]
fn help_text_lists_every_option() {
    let text = help_text();
    assert!(text.starts_with("Usage:"));
    for option in ["--backends", "--scenarios", "--input-len", "--workers", "--chunk-size", "--warmups", "--iterations", "--seed", "--format"] {
        assert!(text.contains(option), "{option}");
    }
    assert_eq!(text.lines().count(), 10);
}

#[test]
fn benchmark_error_displays_its_message() {
    let error = BenchmarkError::new("missing value for `--seed`".to_string());
    assert_eq!(error.to_display_string(), "missing value for `--seed`");
}
