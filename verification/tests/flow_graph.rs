use rustflow::compat::{all_subflow_tasks_of, all_tasks_of, SubflowTask, Task};
use rustflow::cycles::find_non_conditional_cycle_nodes;
use rustflow::inspect::FlowIssueKind;
use rustflow::{escape_dot, FlowGraph, FlowTaskKind, TaskId};

fn named(graph: &mut FlowGraph, kind: FlowTaskKind, name: &str) -> Task {
    Task::emplace(graph, kind).name(graph, name)
}

#[test]
fn flow_inspection_reports_summary_and_dependencies() {
    let mut flow = FlowGraph::with_name("inspect");
    let a = named(&mut flow, FlowTaskKind::Static, "A");
    let b = named(&mut flow, FlowTaskKind::Condition, "B");
    let c = named(&mut flow, FlowTaskKind::Placeholder, "C");

    a.precede(&mut flow, &vec![b]);
    b.precede(&mut flow, &vec![c]);

    let inspection = flow.inspect();
    let summary = inspection.summary();

    assert!(inspection.is_valid());
    assert_eq!(summary.num_tasks(), 3);
    assert_eq!(summary.num_edges(), 2);
    assert_eq!(summary.num_roots(), 1);
    assert_eq!(summary.num_leaves(), 1);
    assert_eq!(inspection.roots(), &[a.id()]);
    assert_eq!(inspection.leaves(), &[c.id()]);

    let task = inspection.task(b.id()).expect("task B should exist");
    assert_eq!(task.name(), Some("B"));
    assert_eq!(task.kind(), FlowTaskKind::Condition);
    assert_eq!(task.predecessors(), &[a.id()]);
    assert_eq!(task.successors(), &[c.id()]);
}

#[test]
fn validation_allows_condition_feedback_loops_with_entry_tasks() {
    let mut flow = FlowGraph::new();
    let init = named(&mut flow, FlowTaskKind::Static, "init");
    let condition = named(&mut flow, FlowTaskKind::Condition, "loop");
    let done = named(&mut flow, FlowTaskKind::Static, "done");

    init.precede(&mut flow, &vec![condition]);
    condition.precede(&mut flow, &vec![condition, done]);

    let inspection = flow.inspect();

    assert!(inspection.is_valid());
    assert!(flow.validate().is_ok(), "condition feedback loop with an entry task should be valid");
}

#[test]
fn validation_reports_non_conditional_cycles() {
    let mut flow = FlowGraph::new();
    let init = named(&mut flow, FlowTaskKind::Static, "init");
    let a = named(&mut flow, FlowTaskKind::Static, "A");
    let b = named(&mut flow, FlowTaskKind::Static, "B");

    init.precede(&mut flow, &vec![a]);
    a.precede(&mut flow, &vec![b]);
    b.precede(&mut flow, &vec![a]);

    let error = match flow.validate() {
        Err(e) => e,
        Ok(()) => panic!("non-conditional cycle should be rejected"),
    };

    assert!(error.issues().iter().any(|issue| issue.kind() == FlowIssueKind::NonConditionalCycle));
    let cycle = error
        .issues()
        .iter()
        .find(|issue| issue.kind() == FlowIssueKind::NonConditionalCycle)
        .expect("cycle issue should exist");
    assert!(cycle.task_ids().contains(&a.id()));
    assert!(cycle.task_ids().contains(&b.id()));
}

#[test]
fn validation_reports_missing_entry_tasks() {
    let mut flow = FlowGraph::new();
    let a = named(&mut flow, FlowTaskKind::Static, "A");
    let b = named(&mut flow, FlowTaskKind::Condition, "B");

    a.precede(&mut flow, &vec![b]);
    b.precede(&mut flow, &vec![a]);

    let error = match flow.validate() {
        Err(e) => e,
        Ok(()) => panic!("a flow without roots should be rejected"),
    };

    assert!(error.issues().iter().any(|issue| issue.kind() == FlowIssueKind::NoRoots));
}

#[test]
fn dump_dot_contains_named_edges() {
    let mut flow = FlowGraph::with_name("demo");
    let a = named(&mut flow, FlowTaskKind::Static, "A");
    let b = named(&mut flow, FlowTaskKind::Static, "B");
    a.precede(&mut flow, &vec![b]);

    let dot = flow.dump_dot();

    assert!(dot.contains("digraph flow"));
    assert!(dot.contains("label=\"demo\""));
    assert!(dot.contains("label=\"A\""));
    assert!(dot.contains("label=\"B\""));
    assert!(dot.contains("0 -> 1"));
}

#[test]
fn add_edge_is_idempotent_and_symmetric() {
    let mut flow = FlowGraph::new();
    let a = flow.emplace(FlowTaskKind::Static);
    let b = flow.emplace(FlowTaskKind::Static);
    flow.add_edge(a, b);
    flow.add_edge(a, b);
    assert_eq!(flow.nodes()[0].successors, vec![b]);
    assert_eq!(flow.nodes()[1].predecessors, vec![a]);
    assert_eq!(flow.num_tasks(), 2);
    assert!(!flow.is_empty());
}

#[test]
fn succeed_adds_edges_into_the_task() {
    let mut flow = FlowGraph::new();
    let a = named(&mut flow, FlowTaskKind::Static, "A");
    let b = named(&mut flow, FlowTaskKind::Static, "B");
    let c = named(&mut flow, FlowTaskKind::Static, "C");
    c.succeed(&mut flow, &vec![a, b]);
    assert_eq!(flow.nodes()[2].predecessors, vec![TaskId(0), TaskId(1)]);
    assert_eq!(flow.nodes()[0].successors, vec![TaskId(2)]);
}

#[test]
fn escape_dot_escapes_quotes_and_backslashes() {
    assert_eq!(escape_dot("a\"b\\c"), "a\\\"b\\\\c");
}

#[test]
fn cycle_detection_ignores_condition_edges() {
    let mut flow = FlowGraph::new();
    let a = flow.emplace(FlowTaskKind::Condition);
    let b = flow.emplace(FlowTaskKind::Static);
    flow.add_edge(a, b);
    flow.add_edge(b, a);
    // the only cycle goes through a condition edge, so nothing is reported
    assert!(find_non_conditional_cycle_nodes(flow.nodes()).is_empty());
    let c = flow.emplace(FlowTaskKind::Static);
    flow.add_edge(c, b);
    flow.add_edge(b, c);
    let cycle = find_non_conditional_cycle_nodes(flow.nodes());
    assert!(cycle.contains(&b));
    assert!(cycle.contains(&c));
}

#[test]
fn compat_tasks_carry_their_graph() {
    let mut first = FlowGraph::new();
    first.set_key(7);
    let mut second = FlowGraph::new();
    second.set_key(8);
    let a = Task::emplace(&mut first, FlowTaskKind::Static);
    let b = Task::emplace(&mut first, FlowTaskKind::Placeholder);
    let c = Task::emplace(&mut second, FlowTaskKind::Static);
    assert_eq!((a.id(), b.id(), c.id()), (TaskId(0), TaskId(1), TaskId(0)));
    assert_eq!(a.graph, 7);
    assert!(a.has_work(&first));
    assert!(!b.has_work(&first));
    assert!(all_tasks_of(&first, &vec![a, b]));
    assert!(!all_tasks_of(&first, &vec![b, c]));
    // linking twice stores the edge once
    a.precede(&mut first, &vec![b]);
    a.precede(&mut first, &vec![b]);
    assert_eq!(first.nodes()[0].successors, vec![TaskId(1)]);
    assert_eq!(Task::of(&first, TaskId(1)), b);
    let named = a.name(&mut first, "A");
    assert_eq!(named, a);
    assert_eq!(first.nodes()[0].name.as_deref(), Some("A"));
}

#[test]
fn compat_subflow_tasks_carry_their_graph() {
    let mut sub = FlowGraph::new();
    sub.set_key(3);
    let mut other = FlowGraph::new();
    other.set_key(4);
    let a = SubflowTask::emplace(&mut sub, FlowTaskKind::Static);
    let b = SubflowTask::emplace(&mut sub, FlowTaskKind::Static);
    let foreign = SubflowTask::emplace(&mut other, FlowTaskKind::Static);
    assert!(!all_subflow_tasks_of(&sub, &vec![foreign]));
    b.succeed(&mut sub, &vec![a]);
    assert_eq!(sub.nodes()[1].predecessors, vec![TaskId(0)]);
}
