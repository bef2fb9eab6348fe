use vstd::prelude::*;
use crate::cycles::{cycle_result, find_non_conditional_cycle_nodes, lemma_cycle_result_unique};
use crate::graph::{FlowGraph, FlowTaskKind, Node, TaskId, has_id, nodes_wf};
use crate::text::{opt_view, push_str, str_to_string};

verus! {

/// What inspection reports of one task.
pub struct FlowTaskInfo {
    pub id: TaskId,
    pub name: Option<String>,
    pub kind: FlowTaskKind,
    pub predecessors: Vec<TaskId>,
    pub successors: Vec<TaskId>,
}

impl FlowTaskInfo {
    pub fn id(&self) -> (r: TaskId)
        ensures
            r == self.id,
    {
        self.id
    }

    pub fn name(&self) -> (r: Option<&str>)
        ensures
            match r {
                Some(n) => opt_view(self.name) == Some(n@),
                None => self.name is None,
            },
    {
        match &self.name {
            Some(n) => Some(n.as_str()),
            None => None,
        }
    }

    pub fn kind(&self) -> (r: FlowTaskKind)
        ensures
            r == self.kind,
    {
        self.kind
    }

    pub fn predecessors(&self) -> (r: &[TaskId])
        ensures
            r@ == self.predecessors@,
    {
        self.predecessors.as_slice()
    }

    pub fn successors(&self) -> (r: &[TaskId])
        ensures
            r@ == self.successors@,
    {
        self.successors.as_slice()
    }
}

/// Counts over a whole flow.
pub struct FlowSummary {
    pub num_tasks: usize,
    pub num_edges: usize,
    pub num_roots: usize,
    pub num_leaves: usize,
}

impl FlowSummary {
    pub fn num_tasks(&self) -> (r: usize)
        ensures
            r == self.num_tasks,
    {
        self.num_tasks
    }

    pub fn num_edges(&self) -> (r: usize)
        ensures
            r == self.num_edges,
    {
        self.num_edges
    }

    pub fn num_roots(&self) -> (r: usize)
        ensures
            r == self.num_roots,
    {
        self.num_roots
    }

    pub fn num_leaves(&self) -> (r: usize)
        ensures
            r == self.num_leaves,
    {
        self.num_leaves
    }
}

/// The problems that validation looks for.
#[derive(Clone, Copy, Debug, PartialEq, Eq, Structural)]
pub enum FlowIssueKind {
    NoRoots,
    NonConditionalCycle,
}

/// One problem found in a flow, with the tasks it concerns.
pub struct FlowIssue {
    pub kind: FlowIssueKind,
    pub task_ids: Vec<TaskId>,
    pub message: String,
}

impl FlowIssue {
    pub fn kind(&self) -> (r: FlowIssueKind)
        ensures
            r == self.kind,
    {
        self.kind
    }

    pub fn task_ids(&self) -> (r: &[TaskId])
        ensures
            r@ == self.task_ids@,
    {
        self.task_ids.as_slice()
    }

    pub fn message(&self) -> (r: &str)
        ensures
            r@ == self.message@,
    {
        self.message.as_str()
    }
}

/// Everything inspection reports of a flow.
pub struct FlowInspection {
    pub summary: FlowSummary,
    pub roots: Vec<TaskId>,
    pub leaves: Vec<TaskId>,
    pub tasks: Vec<FlowTaskInfo>,
    pub issues: Vec<FlowIssue>,
}

impl FlowInspection {
    pub fn summary(&self) -> (r: &FlowSummary)
        ensures
            r == &self.summary,
    {
        &self.summary
    }

    pub fn roots(&self) -> (r: &[TaskId])
        ensures
            r@ == self.roots@,
    {
        self.roots.as_slice()
    }

    pub fn leaves(&self) -> (r: &[TaskId])
        ensures
            r@ == self.leaves@,
    {
        self.leaves.as_slice()
    }

    pub fn tasks(&self) -> (r: &[FlowTaskInfo])
        ensures
            r@ == self.tasks@,
    {
        self.tasks.as_slice()
    }

    /// The first task record with the given id, if any.
    pub fn task(&self, task_id: TaskId) -> (r: Option<&FlowTaskInfo>)
        ensures
            match r {
                Some(t) => exists|k: int|
                    0 <= k < self.tasks@.len() && self.tasks@[k] == *t && t.id == task_id && forall|
                        m: int,
                    | 0 <= m < k ==> #[trigger] self.tasks@[m].id != task_id,
                None => forall|m: int| 0 <= m < self.tasks@.len() ==> #[trigger] self.tasks@[m].id != task_id,
            },
    {
        let mut k: usize = 0;
        while k < self.tasks.len()
            invariant
                k <= self.tasks@.len(),
                forall|m: int| 0 <= m < k ==> #[trigger] self.tasks@[m].id != task_id,
            decreases self.tasks@.len() - k,
        {
            if self.tasks[k].id == task_id {
                return Some(&self.tasks[k]);
            }
            k = k + 1;
        }
        None
    }

    pub fn issues(&self) -> (r: &[FlowIssue])
        ensures
            r@ == self.issues@,
    {
        self.issues.as_slice()
    }

    /// A flow is valid when inspection found no issue.
    pub fn is_valid(&self) -> (r: bool)
        ensures
            r == (self.issues@.len() == 0),
    {
        self.issues.len() == 0
    }
}

/// The issues that made validation fail.
pub struct FlowValidationError {
    pub issues: Vec<FlowIssue>,
}

impl FlowValidationError {
    pub fn issues(&self) -> (r: &[FlowIssue])
        ensures
            r@ == self.issues@,
    {
        self.issues.as_slice()
    }

    /// The messages of the issues, separated by `"; "`, or a generic text
    /// when there are none.
    pub fn to_display_string(&self) -> (s: String)
        ensures
            s@ == validation_error_text(self.issues@),
    {
        if self.issues.len() == 0 {
            return crate::text::str_to_string("flow validation failed");
        }
        let mut s = String::new();
        let mut i: usize = 0;
        while i < self.issues.len()
            invariant
                i <= self.issues@.len(),
                self.issues@.len() > 0,
                s@ == joined_messages(self.issues@, i as int),
            decreases self.issues@.len() - i,
        {
            if i > 0 {
                crate::text::push_str(&mut s, "; ");
            }
            crate::text::push_str(&mut s, self.issues[i].message.as_str());
            i = i + 1;
        }
        s
    }
}

/// The messages of the first `k` issues, separated by `"; "`.
pub open spec fn joined_messages(issues: Seq<FlowIssue>, k: int) -> Seq<char>
    decreases k,
{
    if k <= 0 {
        Seq::empty()
    } else if k == 1 {
        issues[0].message@
    } else {
        joined_messages(issues, k - 1) + "; "@ + issues[k - 1].message@
    }
}

pub open spec fn validation_error_text(issues: Seq<FlowIssue>) -> Seq<char> {
    if issues.len() == 0 {
        "flow validation failed"@
    } else {
        joined_messages(issues, issues.len() as int)
    }
}

/// The ids, ascending, of the first `k` tasks that have no predecessor.
pub open spec fn roots_of(nodes: Seq<Node>, k: int) -> Seq<TaskId>
    decreases k,
{
    if k <= 0 {
        Seq::empty()
    } else if nodes[k - 1].predecessors@.len() == 0 {
        roots_of(nodes, k - 1).push(TaskId((k - 1) as usize))
    } else {
        roots_of(nodes, k - 1)
    }
}

/// The ids, ascending, of the first `k` tasks that have no successor.
pub open spec fn leaves_of(nodes: Seq<Node>, k: int) -> Seq<TaskId>
    decreases k,
{
    if k <= 0 {
        Seq::empty()
    } else if nodes[k - 1].successors@.len() == 0 {
        leaves_of(nodes, k - 1).push(TaskId((k - 1) as usize))
    } else {
        leaves_of(nodes, k - 1)
    }
}

/// The number of edges leaving the first `k` tasks.
pub open spec fn edges_total(nodes: Seq<Node>, k: int) -> nat
    decreases k,
{
    if k <= 0 {
        0
    } else {
        edges_total(nodes, k - 1) + nodes[k - 1].successors@.len()
    }
}

/// The ids `0, 1, ..., k - 1`.
pub open spec fn all_ids(k: int) -> Seq<TaskId> {
    Seq::new(k as nat, |i: int| TaskId(i as usize))
}

/// The record inspection gives of task `i`.
pub open spec fn task_info_of(nodes: Seq<Node>, i: int, t: FlowTaskInfo) -> bool {
    &&& t.id == TaskId(i as usize)
    &&& opt_view(t.name) == opt_view(nodes[i].name)
    &&& t.kind == nodes[i].kind
    &&& t.predecessors@ == nodes[i].predecessors@
    &&& t.successors@ == nodes[i].successors@
}

pub open spec fn no_roots_message() -> Seq<char> {
    "flow has no entry tasks"@
}

pub open spec fn cycle_message() -> Seq<char> {
    "flow contains a cycle formed by non-condition dependencies"@
}

/// The issues inspection reports: no entry task in a non-empty flow (naming every
/// task), then the tasks that a cycle of strong dependencies keeps from running.
pub open spec fn issues_of(nodes: Seq<Node>, issues: Seq<FlowIssue>) -> bool {
    let no_roots = nodes.len() > 0 && roots_of(nodes, nodes.len() as int).len() == 0;
    let k = if no_roots { 1int } else { 0int };
    &&& no_roots ==> {
        &&& issues.len() >= 1
        &&& issues[0].kind == FlowIssueKind::NoRoots
        &&& issues[0].task_ids@ == all_ids(nodes.len() as int)
        &&& issues[0].message@ == no_roots_message()
    }
    &&& (issues.len() == k || issues.len() == k + 1)
    &&& issues.len() == k + 1 ==> {
        &&& issues[k].kind == FlowIssueKind::NonConditionalCycle
        &&& issues[k].task_ids@.len() > 0
        &&& cycle_result(nodes, issues[k].task_ids@)
        &&& issues[k].message@ == cycle_message()
    }
    &&& issues.len() == k ==> cycle_result(nodes, Seq::empty())
}

/// What `inspect` returns for a graph with these tasks.
pub open spec fn inspection_of(nodes: Seq<Node>, r: FlowInspection) -> bool {
    &&& r.tasks@.len() == nodes.len()
    &&& forall|i: int| 0 <= i < nodes.len() ==> task_info_of(nodes, i, #[trigger] r.tasks@[i])
    &&& r.roots@ == roots_of(nodes, nodes.len() as int)
    &&& r.leaves@ == leaves_of(nodes, nodes.len() as int)
    &&& r.summary.num_tasks == nodes.len()
    &&& r.summary.num_edges == edges_total(nodes, nodes.len() as int)
    &&& r.summary.num_roots == r.roots@.len()
    &&& r.summary.num_leaves == r.leaves@.len()
    &&& issues_of(nodes, r.issues@)
}

/// Law: every inspection of one graph reports the same issues (kinds, tasks
/// and messages), so `validate` succeeds exactly when `inspect` reports no
/// issue, and otherwise fails with the issues `inspect` reports.
pub proof fn lemma_validate_agrees_with_inspect(nodes: Seq<Node>, r: FlowInspection, i: FlowInspection)
    requires
        inspection_of(nodes, r),
        inspection_of(nodes, i),
    ensures
        r.issues@.len() == i.issues@.len(),
        forall|k: int| 0 <= k < r.issues@.len() ==> {
            &&& (#[trigger] r.issues@[k]).kind == i.issues@[k].kind
            &&& r.issues@[k].task_ids@ == i.issues@[k].task_ids@
            &&& r.issues@[k].message@ == i.issues@[k].message@
        },
{
    let no_roots = nodes.len() > 0 && roots_of(nodes, nodes.len() as int).len() == 0;
    let k = if no_roots { 1int } else { 0int };
    if r.issues@.len() == k + 1 && i.issues@.len() == k + 1 {
        lemma_cycle_result_unique(nodes, r.issues@[k].task_ids@, i.issues@[k].task_ids@);
    }
    if r.issues@.len() == k && i.issues@.len() == k + 1 {
        lemma_cycle_result_unique(nodes, Seq::empty(), i.issues@[k].task_ids@);
    }
    if i.issues@.len() == k && r.issues@.len() == k + 1 {
        lemma_cycle_result_unique(nodes, Seq::empty(), r.issues@[k].task_ids@);
    }
}

proof fn lemma_ends_of(nodes: Seq<Node>, k: int)
    requires
        0 <= k <= nodes.len(),
        nodes.len() <= usize::MAX,
    ensures
        forall|i: int| 0 <= i < k ==> (has_id(leaves_of(nodes, k), TaskId(i as usize))
            <==> #[trigger] nodes[i].successors@.len() == 0),
        forall|i: int| 0 <= i < k ==> (has_id(roots_of(nodes, k), TaskId(i as usize))
            <==> #[trigger] nodes[i].predecessors@.len() == 0),
        forall|j: int| 0 <= j < leaves_of(nodes, k).len() ==> (#[trigger] leaves_of(nodes, k)[j]).0 < k,
        forall|j: int| 0 <= j < roots_of(nodes, k).len() ==> (#[trigger] roots_of(nodes, k)[j]).0 < k,
    decreases k,
{
    if k > 0 {
        lemma_ends_of(nodes, k - 1);
        let l0 = leaves_of(nodes, k - 1);
        let r0 = roots_of(nodes, k - 1);
        let l = leaves_of(nodes, k);
        let r = roots_of(nodes, k);
        assert forall|i: int| 0 <= i < k implies (has_id(l, TaskId(i as usize))
            <==> #[trigger] nodes[i].successors@.len() == 0) by {
            if has_id(l, TaskId(i as usize)) {
                let j = choose|j: int| 0 <= j < l.len() && l[j] == TaskId(i as usize);
                if j < l0.len() {
                    assert(l0[j] == l[j]);
                    assert(has_id(l0, TaskId(i as usize)));
                    assert(i < k - 1);
                } else {
                    assert(i == k - 1);
                }
            }
            if nodes[i].successors@.len() == 0 {
                if i < k - 1 {
                    let j = choose|j: int| 0 <= j < l0.len() && l0[j] == TaskId(i as usize);
                    assert(l[j] == l0[j]);
                } else {
                    assert(l[l.len() - 1] == TaskId(i as usize));
                }
            }
        }
        assert forall|i: int| 0 <= i < k implies (has_id(r, TaskId(i as usize))
            <==> #[trigger] nodes[i].predecessors@.len() == 0) by {
            if has_id(r, TaskId(i as usize)) {
                let j = choose|j: int| 0 <= j < r.len() && r[j] == TaskId(i as usize);
                if j < r0.len() {
                    assert(r0[j] == r[j]);
                    assert(has_id(r0, TaskId(i as usize)));
                    assert(i < k - 1);
                } else {
                    assert(i == k - 1);
                }
            }
            if nodes[i].predecessors@.len() == 0 {
                if i < k - 1 {
                    let j = choose|j: int| 0 <= j < r0.len() && r0[j] == TaskId(i as usize);
                    assert(r[j] == r0[j]);
                } else {
                    assert(r[r.len() - 1] == TaskId(i as usize));
                }
            }
        }
        assert forall|j: int| 0 <= j < l.len() implies (#[trigger] l[j]).0 < k by {
            if j < l0.len() {
                assert(l[j] == l0[j]);
            }
        }
        assert forall|j: int| 0 <= j < r.len() implies (#[trigger] r[j]).0 < k by {
            if j < r0.len() {
                assert(r[j] == r0[j]);
            }
        }
    }
}

/// Law: an inspection lists as leaves exactly the tasks that have no
/// successor, and as roots exactly those that have no predecessor, whatever
/// their other edges; the summary counts them.
pub proof fn lemma_inspection_leaves_and_roots(nodes: Seq<Node>, r: FlowInspection)
    requires
        nodes_wf(nodes),
        inspection_of(nodes, r),
    ensures
        forall|i: int| 0 <= i < nodes.len() ==> (has_id(r.leaves@, TaskId(i as usize))
            <==> #[trigger] nodes[i].successors@.len() == 0),
        forall|i: int| 0 <= i < nodes.len() ==> (has_id(r.roots@, TaskId(i as usize))
            <==> #[trigger] nodes[i].predecessors@.len() == 0),
        forall|j: int| 0 <= j < r.leaves@.len() ==> (#[trigger] r.leaves@[j]).0 < nodes.len(),
        forall|j: int| 0 <= j < r.roots@.len() ==> (#[trigger] r.roots@[j]).0 < nodes.len(),
        r.summary.num_leaves == r.leaves@.len(),
        r.summary.num_roots == r.roots@.len(),
{
    lemma_ends_of(nodes, nodes.len() as int);
}

/// A copy of a list of ids.
pub fn copy_ids(v: &Vec<TaskId>) -> (r: Vec<TaskId>)
    ensures
        r@ == v@,
{
    let mut r: Vec<TaskId> = Vec::new();
    let mut i: usize = 0;
    while i < v.len()
        invariant
            i <= v@.len(),
            r@ == v@.subrange(0, i as int),
        decreases v@.len() - i,
    {
        r.push(v[i]);
        proof {
            assert(r@ =~= v@.subrange(0, i + 1));
        }
        i = i + 1;
    }
    proof {
        assert(v@.subrange(0, v@.len() as int) =~= v@);
    }
    r
}

fn copy_name(name: &Option<String>) -> (r: Option<String>)
    ensures
        opt_view(r) == opt_view(*name),
{
    match name {
        Some(n) => Some(n.clone()),
        None => None,
    }
}

pub proof fn lemma_roots_len(nodes: Seq<Node>, k: int)
    ensures
        roots_of(nodes, k).len() <= if k < 0 { 0 } else { k },
        leaves_of(nodes, k).len() <= if k < 0 { 0 } else { k },
    decreases k,
{
    if k > 0 {
        lemma_roots_len(nodes, k - 1);
    }
}

/// Inspects the tasks of a graph: per-task records, entry and exit tasks, counts
/// and the issues that make a flow invalid.
pub fn inspect_nodes(nodes: &Vec<Node>) -> (r: FlowInspection)
    requires
        nodes_wf(nodes@),
        edges_total(nodes@, nodes@.len() as int) <= usize::MAX,
    ensures
        inspection_of(nodes@, r),
{
    let n = nodes.len();
    let ghost ns = nodes@;
    let mut tasks: Vec<FlowTaskInfo> = Vec::new();
    let mut roots: Vec<TaskId> = Vec::new();
    let mut leaves: Vec<TaskId> = Vec::new();
    let mut num_edges: usize = 0;
    let mut i: usize = 0;
    while i < n
        invariant
            i <= n,
            n == nodes@.len(),
            ns == nodes@,
            edges_total(ns, n as int) <= usize::MAX,
            tasks@.len() == i,
            forall|k: int| 0 <= k < i ==> task_info_of(ns, k, #[trigger] tasks@[k]),
            roots@ == roots_of(ns, i as int),
            leaves@ == leaves_of(ns, i as int),
            num_edges == edges_total(ns, i as int),
        decreases n - i,
    {
        let node = &nodes[i];
        proof {
            lemma_edges_total_mono(ns, i + 1, n as int);
        }
        num_edges = num_edges + node.successors.len();
        tasks.push(
            FlowTaskInfo {
                id: TaskId(i),
                name: copy_name(&node.name),
                kind: node.kind,
                predecessors: copy_ids(&node.predecessors),
                successors: copy_ids(&node.successors),
            },
        );
        if node.predecessors.len() == 0 {
            roots.push(TaskId(i));
        }
        if node.successors.len() == 0 {
            leaves.push(TaskId(i));
        }
        i = i + 1;
    }
    proof {
        lemma_roots_len(ns, n as int);
    }
    let summary = FlowSummary {
        num_tasks: n,
        num_edges,
        num_roots: roots.len(),
        num_leaves: leaves.len(),
    };
    let mut issues: Vec<FlowIssue> = Vec::new();
    if n > 0 && roots.len() == 0 {
        let mut all: Vec<TaskId> = Vec::new();
        let mut k: usize = 0;
        while k < n
            invariant
                k <= n,
                all@ == all_ids(k as int),
            decreases n - k,
        {
            all.push(TaskId(k));
            proof {
                assert(all@ =~= all_ids(k + 1));
            }
            k = k + 1;
        }
        issues.push(
            FlowIssue {
                kind: FlowIssueKind::NoRoots,
                task_ids: all,
                message: str_to_string("flow has no entry tasks"),
            },
        );
    }
    let cycle_nodes = find_non_conditional_cycle_nodes(nodes);
    if cycle_nodes.len() > 0 {
        issues.push(
            FlowIssue {
                kind: FlowIssueKind::NonConditionalCycle,
                task_ids: cycle_nodes,
                message: str_to_string("flow contains a cycle formed by non-condition dependencies"),
            },
        );
    } else {
        proof {
            assert(cycle_nodes@ =~= Seq::<TaskId>::empty());
        }
    }
    FlowInspection { summary, roots, leaves, tasks, issues }
}

pub proof fn lemma_edges_total_mono(nodes: Seq<Node>, a: int, b: int)
    requires
        0 <= a <= b <= nodes.len(),
    ensures
        edges_total(nodes, a) <= edges_total(nodes, b),
    decreases b - a,
{
    if a < b {
        lemma_edges_total_mono(nodes, a, b - 1);
    }
}

impl FlowGraph {
    /// Reports the graph's tasks, entry and exit tasks, counts and issues.
    pub fn inspect(&self) -> (r: FlowInspection)
        requires
            self.wf(),
            edges_total(self.spec_nodes(), self.spec_len() as int) <= usize::MAX,
        ensures
            inspection_of(self.spec_nodes(), r),
    {
        inspect_nodes(self.nodes())
    }

    /// Succeeds exactly when inspection finds no issue; otherwise returns the issues.
    pub fn validate(&self) -> (r: Result<(), FlowValidationError>)
        requires
            self.wf(),
            edges_total(self.spec_nodes(), self.spec_len() as int) <= usize::MAX,
        ensures
            match r {
                Ok(()) => exists|i: FlowInspection| inspection_of(self.spec_nodes(), i) && i.issues@.len() == 0,
                Err(e) => e.issues@.len() > 0 && exists|i: FlowInspection|
                    inspection_of(self.spec_nodes(), i) && i.issues@ == e.issues@,
            },
    {
        let inspection = self.inspect();
        if inspection.is_valid() {
            return Ok(());
        }
        Err(FlowValidationError { issues: inspection.issues })
    }
}

} // verus!
