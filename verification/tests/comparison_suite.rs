use rustflow::level_graph::{graph_pipeline_checksum, level_graph};
use rustflow::suite::{suite_plan, wants_case, CaseId, SuiteStep};

#[test]
fn suite_plan_without_selection_lists_every_case_in_order() {
    let plan = suite_plan(&None);
    assert_eq!(plan.len(), 25);
    assert_eq!(plan[0], SuiteStep::Run(CaseId::AsyncTask));
    assert_eq!(plan[7], SuiteStep::Run(CaseId::GraphPipeline));
    assert_eq!(plan[9], SuiteStep::Skipped(CaseId::HeteroTraversal));
    assert_eq!(plan[16], SuiteStep::Skipped(CaseId::Mnist));
    assert_eq!(plan[24], SuiteStep::Run(CaseId::Wavefront));
    let skipped = plan.iter().filter(|step| matches!(step, SuiteStep::Skipped(_))).count();
    assert_eq!(skipped, 2);
}

#[test]
fn suite_plan_keeps_the_fixed_order_not_the_selection_order() {
    let selected = Some(vec!["wavefront".to_string(), "mnist".to_string(), "primes".to_string(), "no_such_case".to_string()]);
    let plan = suite_plan(&selected);
    assert_eq!(plan, vec![SuiteStep::Skipped(CaseId::Mnist), SuiteStep::Run(CaseId::Primes), SuiteStep::Run(CaseId::Wavefront)]);
}

#[test]
fn suite_plan_with_empty_selection_runs_nothing() {
    assert!(suite_plan(&Some(Vec::new())).is_empty());
}

#[test]
fn wants_case_matches_whole_names_only() {
    let selected = Some(vec!["sort".to_string()]);
    assert!(wants_case(&selected, CaseId::Sort));
    assert!(!wants_case(&selected, CaseId::MergeSort));
    assert!(wants_case(&None, CaseId::MergeSort));
}

#[test]
fn case_names_titles_and_notes() {
    assert_eq!(CaseId::GraphPipeline.name(), "graph_pipeline");
    assert_eq!(CaseId::GraphPipeline.title(), "Graph Pipeline");
    assert_eq!(CaseId::Nqueens.title(), "N-Queens");
    assert_eq!(CaseId::Sort.skip_note(), None);
    assert!(CaseId::Mnist.skip_note().unwrap().contains("MNIST"));
    assert!(CaseId::HeteroTraversal.skip_note().unwrap().contains("CUDA"));
    assert_eq!(CaseId::all().len(), 25);
}

#[test]
fn level_graph_of_three_by_two() {
    let g = level_graph(3, 2, &vec![0, 1, 2, 3, 0, 1]);
    assert_eq!(g.length(), 3);
    assert_eq!(g.levels(), 2);
    assert_eq!(g.out_edges(0), &vec![0]);
    assert_eq!(g.out_edges(1), &vec![2, 1]);
    assert_eq!(g.out_edges(2), &vec![0, 2, 1]);
    assert_eq!(g.out_edges(3), &vec![2, 1, 0]);
    assert_eq!(g.out_edges(4), &vec![2]);
    assert_eq!(g.out_edges(5), &vec![1, 0]);
    assert!(g.in_edges(0).is_empty());
    assert_eq!(g.in_edges(3), &vec![(0, 0), (2, 0)]);
    assert_eq!(g.in_edges(4), &vec![(1, 1), (2, 2)]);
    assert_eq!(g.in_edges(5), &vec![(1, 0), (2, 1)]);
    assert_eq!(g.uid(1, 2), 5);
    assert_eq!(g.graph_size(), 18);
}

#[test]
fn level_graph_reshuffles_when_the_order_runs_out() {
    let g = level_graph(4, 3, &vec![5, 2, 7, 0, 1, 3, 3, 2, 0, 9, 4, 6]);
    assert_eq!(g.out_edges(0), &vec![1, 3]);
    assert_eq!(g.out_edges(1), &vec![2, 0]);
    assert_eq!(g.out_edges(2), &vec![1, 0, 2, 3]);
    assert_eq!(g.out_edges(3), &vec![3]);
    assert_eq!(g.out_edges(11), &vec![1, 3, 0]);
    assert_eq!(g.in_edges(7), &vec![(0, 1), (2, 3), (3, 0)]);
    assert_eq!(g.graph_size(), 39);
    for u in 0..12 {
        assert!(!g.out_edges(u).is_empty() && g.out_edges(u).len() <= 4);
    }
}

#[test]
fn graph_pipeline_checksum_values() {
    assert_eq!(graph_pipeline_checksum(&level_graph(1, 1, &vec![0])), 127);
    assert_eq!(graph_pipeline_checksum(&level_graph(3, 2, &vec![0, 1, 2, 3, 0, 1])), 6147);
    assert_eq!(graph_pipeline_checksum(&level_graph(2, 2, &vec![3, 3, 3, 3])), 3424);
    assert_eq!(graph_pipeline_checksum(&level_graph(4, 3, &vec![5, 2, 7, 0, 1, 3, 3, 2, 0, 9, 4, 6])), 30578);
    assert_eq!(graph_pipeline_checksum(&level_graph(0, 5, &Vec::new())), 0);
}
