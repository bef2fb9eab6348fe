use vstd::prelude::*;
use crate::graph::{FlowGraph, FlowTaskKind, TaskId, has_edge};
use crate::text::opt_view;

verus! {

/// The edges of `after` are those of `before` plus one edge from `from` to
/// every task in `to`.
pub open spec fn edges_added_from(before: FlowGraph, after: FlowGraph, from: int, to: Seq<TaskId>) -> bool {
    forall|i: int, j: int|
        0 <= i < before.spec_len() && 0 <= j < before.spec_len() ==> (has_edge(after.spec_nodes(), i, j) <==> (has_edge(
            before.spec_nodes(),
            i,
            j,
        ) || (i == from && exists|k: int| 0 <= k < to.len() && #[trigger] to[k].0 == j)))
}

/// The edges of `after` are those of `before` plus one edge from every task
/// in `from` to `to`.
pub open spec fn edges_added_to(before: FlowGraph, after: FlowGraph, from: Seq<TaskId>, to: int) -> bool {
    forall|i: int, j: int|
        0 <= i < before.spec_len() && 0 <= j < before.spec_len() ==> (has_edge(after.spec_nodes(), i, j) <==> (has_edge(
            before.spec_nodes(),
            i,
            j,
        ) || (j == to && exists|k: int| 0 <= k < from.len() && #[trigger] from[k].0 == i)))
}

proof fn lemma_precedes_prefix(gs: Seq<FlowGraph>, ps: Seq<TaskId>, t: TaskId, k: int)
    requires
        gs.len() == ps.len() + 1,
        0 <= k < gs.len(),
        forall|q: int| 0 <= q < ps.len() ==> #[trigger] gs[q + 1].spec_len() == gs[q].spec_len(),
        forall|q: int| 0 <= q < ps.len() ==> edges_added_from(#[trigger] gs[q], gs[q + 1], ps[q].0 as int, seq![t]),
    ensures
        gs[k].spec_len() == gs[0].spec_len(),
        forall|i: int, j: int| 0 <= i < gs[0].spec_len() && 0 <= j < gs[0].spec_len() ==> (has_edge(gs[k].spec_nodes(), i, j) <==> (
            has_edge(gs[0].spec_nodes(), i, j) || (j == t.0 && exists|q: int| 0 <= q < k && #[trigger] ps[q].0 == i))),
    decreases k,
{
    if k > 0 {
        lemma_precedes_prefix(gs, ps, t, k - 1);
        let q0 = k - 1;
        assert(gs[q0 + 1].spec_len() == gs[q0].spec_len());
        assert(edges_added_from(gs[q0], gs[q0 + 1], ps[q0].0 as int, seq![t]));
        assert forall|i: int, j: int| 0 <= i < gs[0].spec_len() && 0 <= j < gs[0].spec_len() implies (has_edge(gs[k].spec_nodes(), i, j) <==> (
            has_edge(gs[0].spec_nodes(), i, j) || (j == t.0 && exists|q: int| 0 <= q < k && #[trigger] ps[q].0 == i))) by {
            let one = seq![t];
            if i == ps[q0].0 && j == t.0 {
                assert(one[0].0 == j);
            }
            if exists|r: int| 0 <= r < one.len() && #[trigger] one[r].0 == j {
                assert(j == t.0);
            }
            if j == t.0 && exists|q: int| 0 <= q < k && #[trigger] ps[q].0 == i {
                let q = choose|q: int| 0 <= q < k && #[trigger] ps[q].0 == i;
                if q < k - 1 {
                    assert(exists|q2: int| 0 <= q2 < k - 1 && #[trigger] ps[q2].0 == i);
                }
            }
        }
    }
}

/// Law: making `ps[0], ps[1], ...` predecessors of `t` in one `succeed`
/// gives the same edges as making each of them precede `t` in turn.
pub proof fn lemma_succeed_is_precede_each(gs: Seq<FlowGraph>, ps: Seq<TaskId>, t: TaskId, after: FlowGraph)
    requires
        gs.len() == ps.len() + 1,
        forall|q: int| 0 <= q < ps.len() ==> #[trigger] gs[q + 1].spec_len() == gs[q].spec_len(),
        forall|q: int| 0 <= q < ps.len() ==> edges_added_from(#[trigger] gs[q], gs[q + 1], ps[q].0 as int, seq![t]),
        edges_added_to(gs[0], after, ps, t.0 as int),
    ensures
        forall|i: int, j: int| 0 <= i < gs[0].spec_len() && 0 <= j < gs[0].spec_len() ==> (has_edge(gs.last().spec_nodes(), i, j)
            <==> has_edge(after.spec_nodes(), i, j)),
{
    lemma_precedes_prefix(gs, ps, t, ps.len() as int);
}

/// `after` has the tasks of `before`, each of the same kind.
pub open spec fn same_kinds(before: FlowGraph, after: FlowGraph) -> bool {
    &&& after.spec_len() == before.spec_len()
    &&& forall|i: int| 0 <= i < before.spec_len() ==> #[trigger] after.spec_nodes()[i].kind == before.spec_nodes()[i].kind
}

/// Law: whether a task has work of its own is fixed when it is created
/// (false exactly for a placeholder), and stays so through any steps that
/// keep the kinds of the tasks, as naming a task, `precede` and `succeed`
/// all do.
pub proof fn lemma_has_work_stays(gs: Seq<FlowGraph>, i: int)
    requires
        gs.len() >= 1,
        0 <= i < gs[0].spec_len(),
        forall|q: int| 0 <= q < gs.len() - 1 ==> same_kinds(#[trigger] gs[q], gs[q + 1]),
    ensures
        gs.last().spec_len() == gs[0].spec_len(),
        gs.last().spec_nodes()[i].kind.spec_has_work() == gs[0].spec_nodes()[i].kind.spec_has_work(),
        gs[0].spec_nodes()[i].kind.spec_has_work() == !(gs[0].spec_nodes()[i].kind is Placeholder),
    decreases gs.len(),
{
    if gs.len() > 1 {
        let front = gs.drop_last();
        assert forall|q: int| 0 <= q < front.len() - 1 implies same_kinds(#[trigger] front[q], front[q + 1]) by {
            assert(front[q] == gs[q] && front[q + 1] == gs[q + 1]);
        }
        lemma_has_work_stays(front, i);
        assert(same_kinds(gs[gs.len() - 2], gs[gs.len() - 1]));
    }
}

/// Law: tasks emplaced one after another into a flow of `lens[0]` tasks get
/// the ids `lens[0], lens[0] + 1, ...` in creation order (from an empty
/// flow, `0, 1, 2, ...`), as `emplace` states of each: its id is the task
/// count before it, which it raises by one.
pub proof fn lemma_ids_in_creation_order(lens: Seq<nat>, ids: Seq<nat>)
    requires
        lens.len() == ids.len() + 1,
        forall|k: int| 0 <= k < ids.len() ==> #[trigger] ids[k] == lens[k] && lens[k + 1] == lens[k] + 1,
    ensures
        forall|k: int| 0 <= k < ids.len() ==> #[trigger] ids[k] == lens[0] + k,
        lens.last() == lens[0] + ids.len(),
    decreases ids.len(),
{
    if ids.len() > 0 {
        let l2 = lens.drop_last();
        let i2 = ids.drop_last();
        assert forall|k: int| 0 <= k < i2.len() implies #[trigger] i2[k] == l2[k] && l2[k + 1] == l2[k] + 1 by {
            assert(i2[k] == ids[k] && l2[k] == lens[k] && l2[k + 1] == lens[k + 1]);
        }
        lemma_ids_in_creation_order(l2, i2);
        assert forall|k: int| 0 <= k < ids.len() implies #[trigger] ids[k] == lens[0] + k by {
            if k < ids.len() - 1 {
                assert(i2[k] == ids[k]);
            } else {
                assert(ids[k] == lens[k]);
                assert(l2.last() == lens[k]);
            }
        }
        let n = ids.len() - 1;
        assert(ids[n] == lens[n] && lens[n + 1] == lens[n] + 1);
    }
}

/// Law: `precede` with the same tasks a second time adds no edge: each edge
/// is stored once.
pub proof fn lemma_precede_twice_adds_nothing(g0: FlowGraph, g1: FlowGraph, g2: FlowGraph, from: int, to: Seq<TaskId>)
    requires
        g1.spec_len() == g0.spec_len(),
        edges_added_from(g0, g1, from, to),
        edges_added_from(g1, g2, from, to),
    ensures
        forall|i: int, j: int| 0 <= i < g0.spec_len() && 0 <= j < g0.spec_len() ==> (has_edge(g2.spec_nodes(), i, j)
            <==> has_edge(g1.spec_nodes(), i, j)),
{
}

/// All tasks of `tasks` belong to a graph of `n` tasks.
pub open spec fn all_below(tasks: Seq<TaskId>, n: nat) -> bool {
    forall|k: int| 0 <= k < tasks.len() ==> (#[trigger] tasks[k]).0 < n
}

/// Adds an edge from `from` to each task of `to`, in order.
pub fn add_edges_from(graph: &mut FlowGraph, from: TaskId, to: &Vec<TaskId>)
    requires
        old(graph).wf(),
        from.0 < old(graph).spec_len(),
        all_below(to@, old(graph).spec_len()),
    ensures
        final(graph).wf(),
        final(graph).spec_len() == old(graph).spec_len(),
        final(graph).spec_name() == old(graph).spec_name(),
        final(graph).spec_key() == old(graph).spec_key(),
        same_kinds(*old(graph), *final(graph)),
        edges_added_from(*old(graph), *final(graph), from.0 as int, to@),
{
    let mut k: usize = 0;
    while k < to.len()
        invariant
            graph.wf(),
            graph.spec_len() == old(graph).spec_len(),
            graph.spec_name() == old(graph).spec_name(),
            graph.spec_key() == old(graph).spec_key(),
            from.0 < old(graph).spec_len(),
            all_below(to@, old(graph).spec_len()),
            k <= to@.len(),
            same_kinds(*old(graph), *graph),
            edges_added_from(*old(graph), *graph, from.0 as int, to@.subrange(0, k as int)),
        decreases to@.len() - k,
    {
        let target = to[k];
        let ghost before = *graph;
        graph.add_edge(from, target);
        proof {
            let sub = to@.subrange(0, k as int + 1);
            assert forall|i: int, j: int|
                0 <= i < old(graph).spec_len() && 0 <= j < old(graph).spec_len() implies (has_edge(graph.spec_nodes(), i, j) <==> (has_edge(
                    old(graph).spec_nodes(),
                    i,
                    j,
                ) || (i == from.0 && exists|q: int| 0 <= q < sub.len() && #[trigger] sub[q].0 == j))) by {
                if i == from.0 && j == target.0 {
                    assert(sub[k as int].0 == j);
                }
                if exists|q: int| 0 <= q < sub.len() && #[trigger] sub[q].0 == j {
                    let q = choose|q: int| 0 <= q < sub.len() && #[trigger] sub[q].0 == j;
                    if q < k {
                        assert(to@.subrange(0, k as int)[q].0 == j);
                    }
                }
                if exists|q: int| 0 <= q < to@.subrange(0, k as int).len() && #[trigger] to@.subrange(0, k as int)[q].0 == j {
                    let q = choose|q: int| 0 <= q < to@.subrange(0, k as int).len() && #[trigger] to@.subrange(0, k as int)[q].0 == j;
                    assert(sub[q].0 == j);
                }
            }
        }
        k = k + 1;
    }
    proof {
        assert(to@.subrange(0, to@.len() as int) =~= to@);
    }
}

/// Adds an edge from each task of `from` to `to`, in order.
pub fn add_edges_to(graph: &mut FlowGraph, from: &Vec<TaskId>, to: TaskId)
    requires
        old(graph).wf(),
        to.0 < old(graph).spec_len(),
        all_below(from@, old(graph).spec_len()),
    ensures
        final(graph).wf(),
        final(graph).spec_len() == old(graph).spec_len(),
        final(graph).spec_name() == old(graph).spec_name(),
        final(graph).spec_key() == old(graph).spec_key(),
        same_kinds(*old(graph), *final(graph)),
        edges_added_to(*old(graph), *final(graph), from@, to.0 as int),
{
    let mut k: usize = 0;
    while k < from.len()
        invariant
            graph.wf(),
            graph.spec_len() == old(graph).spec_len(),
            graph.spec_name() == old(graph).spec_name(),
            graph.spec_key() == old(graph).spec_key(),
            to.0 < old(graph).spec_len(),
            all_below(from@, old(graph).spec_len()),
            k <= from@.len(),
            same_kinds(*old(graph), *graph),
            edges_added_to(*old(graph), *graph, from@.subrange(0, k as int), to.0 as int),
        decreases from@.len() - k,
    {
        let source = from[k];
        graph.add_edge(source, to);
        proof {
            let sub = from@.subrange(0, k as int + 1);
            assert forall|i: int, j: int|
                0 <= i < old(graph).spec_len() && 0 <= j < old(graph).spec_len() implies (has_edge(graph.spec_nodes(), i, j) <==> (has_edge(
                    old(graph).spec_nodes(),
                    i,
                    j,
                ) || (j == to.0 && exists|q: int| 0 <= q < sub.len() && #[trigger] sub[q].0 == i))) by {
                if j == to.0 && i == source.0 {
                    assert(sub[k as int].0 == i);
                }
                if exists|q: int| 0 <= q < sub.len() && #[trigger] sub[q].0 == i {
                    let q = choose|q: int| 0 <= q < sub.len() && #[trigger] sub[q].0 == i;
                    if q < k {
                        assert(from@.subrange(0, k as int)[q].0 == i);
                    }
                }
                if exists|q: int| 0 <= q < from@.subrange(0, k as int).len() && #[trigger] from@.subrange(0, k as int)[q].0 == i {
                    let q = choose|q: int| 0 <= q < from@.subrange(0, k as int).len() && #[trigger] from@.subrange(0, k as int)[q].0 == i;
                    assert(sub[q].0 == i);
                }
            }
        }
        k = k + 1;
    }
    proof {
        assert(from@.subrange(0, from@.len() as int) =~= from@);
    }
}

/// The ids of `tasks`, in order.
fn task_ids(tasks: &Vec<Task>) -> (r: Vec<TaskId>)
    ensures
        r@ == tasks@.map_values(|t: Task| t.id),
{
    let mut ids: Vec<TaskId> = Vec::new();
    let mut k: usize = 0;
    while k < tasks.len()
        invariant
            k <= tasks@.len(),
            ids@ == tasks@.subrange(0, k as int).map_values(|t: Task| t.id),
        decreases tasks@.len() - k,
    {
        ids.push(tasks[k].id);
        k = k + 1;
        proof {
            assert(ids@ =~= tasks@.subrange(0, k as int).map_values(|t: Task| t.id));
        }
    }
    proof {
        assert(tasks@.subrange(0, k as int) =~= tasks@);
    }
    ids
}

/// Every task of `tasks` belongs to the flow whose graph has the key `key`.
pub open spec fn tasks_of(tasks: Seq<Task>, key: u64) -> bool {
    forall|k: int| 0 <= k < tasks.len() ==> (#[trigger] tasks[k]).graph == key
}

/// Whether every task of `tasks` belongs to `graph`.
pub fn all_tasks_of(graph: &FlowGraph, tasks: &Vec<Task>) -> (r: bool)
    ensures
        r == tasks_of(tasks@, graph.spec_key()),
{
    let key = graph.key();
    let mut k: usize = 0;
    while k < tasks.len()
        invariant
            k <= tasks@.len(),
            key == graph.spec_key(),
            forall|q: int| 0 <= q < k ==> (#[trigger] tasks@[q]).graph == key,
        decreases tasks@.len() - k,
    {
        if tasks[k].graph != key {
            return false;
        }
        k = k + 1;
    }
    true
}

/// A task of a flow, in the Taskflow-style interface: the key of the
/// flow's graph and the task's id in it.  Tasks of one flow may be
/// linked; linking a task of another flow is refused.
#[derive(Clone, Copy, Debug, PartialEq, Eq, Structural)]
pub struct Task {
    pub graph: u64,
    pub id: TaskId,
}

impl Task {
    /// The task `id` of `graph`.
    pub fn of(graph: &FlowGraph, id: TaskId) -> (r: Task)
        ensures
            r.graph == graph.spec_key(),
            r.id == id,
    {
        Task { graph: graph.key(), id }
    }

    /// Adds a task of the given kind to `graph`; its id is the number of
    /// tasks the graph held before.
    pub fn emplace(graph: &mut FlowGraph, kind: FlowTaskKind) -> (r: Task)
        requires
            old(graph).wf(),
            old(graph).spec_len() < usize::MAX,
        ensures
            final(graph).wf(),
            r.graph == old(graph).spec_key(),
            r.id.0 == old(graph).spec_len(),
            final(graph).spec_len() == old(graph).spec_len() + 1,
            final(graph).spec_key() == old(graph).spec_key(),
            final(graph).spec_name() == old(graph).spec_name(),
            forall|i: int|
                0 <= i < old(graph).spec_len() ==> #[trigger] final(graph).spec_nodes()[i] == old(graph).spec_nodes()[i],
            final(graph).spec_nodes()[r.id.0 as int].kind == kind,
            final(graph).spec_nodes()[r.id.0 as int].name is None,
            final(graph).spec_nodes()[r.id.0 as int].successors@.len() == 0,
            final(graph).spec_nodes()[r.id.0 as int].predecessors@.len() == 0,
    {
        let id = graph.emplace(kind);
        Task { graph: graph.key(), id }
    }

    pub fn id(&self) -> (r: TaskId)
        ensures
            r == self.id,
    {
        self.id
    }

    /// Names the task; returns the same task.
    pub fn name(&self, graph: &mut FlowGraph, name: &str) -> (r: Task)
        requires
            old(graph).wf(),
            self.graph == old(graph).spec_key(),
            self.id.0 < old(graph).spec_len(),
        ensures
            r == *self,
            final(graph).wf(),
            final(graph).spec_key() == old(graph).spec_key(),
            final(graph).spec_name() == old(graph).spec_name(),
            final(graph).spec_len() == old(graph).spec_len(),
            forall|i: int|
                0 <= i < old(graph).spec_len() && i != self.id.0 ==> #[trigger] final(graph).spec_nodes()[i] == old(graph).spec_nodes()[i],
            opt_view(final(graph).spec_nodes()[self.id.0 as int].name) == Some(name@),
            final(graph).spec_nodes()[self.id.0 as int].kind == old(graph).spec_nodes()[self.id.0 as int].kind,
            same_kinds(*old(graph), *final(graph)),
            final(graph).spec_nodes()[self.id.0 as int].successors == old(graph).spec_nodes()[self.id.0 as int].successors,
            final(graph).spec_nodes()[self.id.0 as int].predecessors == old(graph).spec_nodes()[self.id.0 as int].predecessors,
    {
        graph.set_task_name(self.id, name);
        *self
    }

    /// Whether the task runs work of its own (every kind but a placeholder).
    pub fn has_work(&self, graph: &FlowGraph) -> (r: bool)
        requires
            self.graph == graph.spec_key(),
            self.id.0 < graph.spec_len(),
        ensures
            r == graph.spec_nodes()[self.id.0 as int].kind.spec_has_work(),
    {
        graph.nodes()[self.id.0].kind.has_work()
    }

    /// Makes `self` a predecessor of each of `tasks`, each edge stored once.
    /// All of them must belong to the same flow as `self`.
    pub fn precede(&self, graph: &mut FlowGraph, tasks: &Vec<Task>) -> (r: Task)
        requires
            old(graph).wf(),
            self.graph == old(graph).spec_key(),
            tasks_of(tasks@, old(graph).spec_key()),
            self.id.0 < old(graph).spec_len(),
            forall|k: int| 0 <= k < tasks@.len() ==> (#[trigger] tasks@[k]).id.0 < old(graph).spec_len(),
        ensures
            r == *self,
            final(graph).wf(),
            final(graph).spec_key() == old(graph).spec_key(),
            final(graph).spec_len() == old(graph).spec_len(),
            same_kinds(*old(graph), *final(graph)),
            edges_added_from(*old(graph), *final(graph), self.id.0 as int, tasks@.map_values(|t: Task| t.id)),
    {
        let ids = task_ids(tasks);
        add_edges_from(graph, self.id, &ids);
        *self
    }

    /// Makes each of `tasks` a predecessor of `self`, each edge stored once.
    /// All of them must belong to the same flow as `self`.
    pub fn succeed(&self, graph: &mut FlowGraph, tasks: &Vec<Task>) -> (r: Task)
        requires
            old(graph).wf(),
            self.graph == old(graph).spec_key(),
            tasks_of(tasks@, old(graph).spec_key()),
            self.id.0 < old(graph).spec_len(),
            forall|k: int| 0 <= k < tasks@.len() ==> (#[trigger] tasks@[k]).id.0 < old(graph).spec_len(),
        ensures
            r == *self,
            final(graph).wf(),
            final(graph).spec_key() == old(graph).spec_key(),
            final(graph).spec_len() == old(graph).spec_len(),
            same_kinds(*old(graph), *final(graph)),
            edges_added_to(*old(graph), *final(graph), tasks@.map_values(|t: Task| t.id), self.id.0 as int),
    {
        let ids = task_ids(tasks);
        add_edges_to(graph, &ids, self.id);
        *self
    }
}

/// The ids of `tasks`, in order.
fn subflow_task_ids(tasks: &Vec<SubflowTask>) -> (r: Vec<TaskId>)
    ensures
        r@ == tasks@.map_values(|t: SubflowTask| t.id),
{
    let mut ids: Vec<TaskId> = Vec::new();
    let mut k: usize = 0;
    while k < tasks.len()
        invariant
            k <= tasks@.len(),
            ids@ == tasks@.subrange(0, k as int).map_values(|t: SubflowTask| t.id),
        decreases tasks@.len() - k,
    {
        ids.push(tasks[k].id);
        k = k + 1;
        proof {
            assert(ids@ =~= tasks@.subrange(0, k as int).map_values(|t: SubflowTask| t.id));
        }
    }
    proof {
        assert(tasks@.subrange(0, k as int) =~= tasks@);
    }
    ids
}

/// Every task of `tasks` belongs to the subflow whose graph has the key `key`.
pub open spec fn subflow_tasks_of(tasks: Seq<SubflowTask>, key: u64) -> bool {
    forall|k: int| 0 <= k < tasks.len() ==> (#[trigger] tasks[k]).graph == key
}

/// Whether every task of `tasks` belongs to `graph`.
pub fn all_subflow_tasks_of(graph: &FlowGraph, tasks: &Vec<SubflowTask>) -> (r: bool)
    ensures
        r == subflow_tasks_of(tasks@, graph.spec_key()),
{
    let key = graph.key();
    let mut k: usize = 0;
    while k < tasks.len()
        invariant
            k <= tasks@.len(),
            key == graph.spec_key(),
            forall|q: int| 0 <= q < k ==> (#[trigger] tasks@[q]).graph == key,
        decreases tasks@.len() - k,
    {
        if tasks[k].graph != key {
            return false;
        }
        k = k + 1;
    }
    true
}

/// A task of a subflow, in the Taskflow-style interface: the key of the
/// subflow's graph and the task's id in it.  Tasks of one subflow may be
/// linked; linking a task of another subflow is refused.
#[derive(Clone, Copy, Debug, PartialEq, Eq, Structural)]
pub struct SubflowTask {
    pub graph: u64,
    pub id: TaskId,
}

impl SubflowTask {
    /// The task `id` of `graph`.
    pub fn of(graph: &FlowGraph, id: TaskId) -> (r: SubflowTask)
        ensures
            r.graph == graph.spec_key(),
            r.id == id,
    {
        SubflowTask { graph: graph.key(), id }
    }

    /// Adds a task of the given kind to `graph`; its id is the number of
    /// tasks the graph held before.
    pub fn emplace(graph: &mut FlowGraph, kind: FlowTaskKind) -> (r: SubflowTask)
        requires
            old(graph).wf(),
            old(graph).spec_len() < usize::MAX,
        ensures
            final(graph).wf(),
            r.graph == old(graph).spec_key(),
            r.id.0 == old(graph).spec_len(),
            final(graph).spec_len() == old(graph).spec_len() + 1,
            final(graph).spec_key() == old(graph).spec_key(),
            final(graph).spec_name() == old(graph).spec_name(),
            forall|i: int|
                0 <= i < old(graph).spec_len() ==> #[trigger] final(graph).spec_nodes()[i] == old(graph).spec_nodes()[i],
            final(graph).spec_nodes()[r.id.0 as int].kind == kind,
            final(graph).spec_nodes()[r.id.0 as int].name is None,
            final(graph).spec_nodes()[r.id.0 as int].successors@.len() == 0,
            final(graph).spec_nodes()[r.id.0 as int].predecessors@.len() == 0,
    {
        let id = graph.emplace(kind);
        SubflowTask { graph: graph.key(), id }
    }

    pub fn id(&self) -> (r: TaskId)
        ensures
            r == self.id,
    {
        self.id
    }

    /// Names the task; returns the same task.
    pub fn name(&self, graph: &mut FlowGraph, name: &str) -> (r: SubflowTask)
        requires
            old(graph).wf(),
            self.graph == old(graph).spec_key(),
            self.id.0 < old(graph).spec_len(),
        ensures
            r == *self,
            final(graph).wf(),
            final(graph).spec_key() == old(graph).spec_key(),
            final(graph).spec_name() == old(graph).spec_name(),
            final(graph).spec_len() == old(graph).spec_len(),
            forall|i: int|
                0 <= i < old(graph).spec_len() && i != self.id.0 ==> #[trigger] final(graph).spec_nodes()[i] == old(graph).spec_nodes()[i],
            opt_view(final(graph).spec_nodes()[self.id.0 as int].name) == Some(name@),
            final(graph).spec_nodes()[self.id.0 as int].kind == old(graph).spec_nodes()[self.id.0 as int].kind,
            same_kinds(*old(graph), *final(graph)),
            final(graph).spec_nodes()[self.id.0 as int].successors == old(graph).spec_nodes()[self.id.0 as int].successors,
            final(graph).spec_nodes()[self.id.0 as int].predecessors == old(graph).spec_nodes()[self.id.0 as int].predecessors,
    {
        graph.set_task_name(self.id, name);
        *self
    }

    /// Whether the task runs work of its own (every kind but a placeholder).
    pub fn has_work(&self, graph: &FlowGraph) -> (r: bool)
        requires
            self.graph == graph.spec_key(),
            self.id.0 < graph.spec_len(),
        ensures
            r == graph.spec_nodes()[self.id.0 as int].kind.spec_has_work(),
    {
        graph.nodes()[self.id.0].kind.has_work()
    }

    /// Makes `self` a predecessor of each of `tasks`, each edge stored once.
    /// All of them must belong to the same subflow as `self`.
    pub fn precede(&self, graph: &mut FlowGraph, tasks: &Vec<SubflowTask>) -> (r: SubflowTask)
        requires
            old(graph).wf(),
            self.graph == old(graph).spec_key(),
            subflow_tasks_of(tasks@, old(graph).spec_key()),
            self.id.0 < old(graph).spec_len(),
            forall|k: int| 0 <= k < tasks@.len() ==> (#[trigger] tasks@[k]).id.0 < old(graph).spec_len(),
        ensures
            r == *self,
            final(graph).wf(),
            final(graph).spec_key() == old(graph).spec_key(),
            final(graph).spec_len() == old(graph).spec_len(),
            same_kinds(*old(graph), *final(graph)),
            edges_added_from(*old(graph), *final(graph), self.id.0 as int, tasks@.map_values(|t: SubflowTask| t.id)),
    {
        let ids = subflow_task_ids(tasks);
        add_edges_from(graph, self.id, &ids);
        *self
    }

    /// Makes each of `tasks` a predecessor of `self`, each edge stored once.
    /// All of them must belong to the same subflow as `self`.
    pub fn succeed(&self, graph: &mut FlowGraph, tasks: &Vec<SubflowTask>) -> (r: SubflowTask)
        requires
            old(graph).wf(),
            self.graph == old(graph).spec_key(),
            subflow_tasks_of(tasks@, old(graph).spec_key()),
            self.id.0 < old(graph).spec_len(),
            forall|k: int| 0 <= k < tasks@.len() ==> (#[trigger] tasks@[k]).id.0 < old(graph).spec_len(),
        ensures
            r == *self,
            final(graph).wf(),
            final(graph).spec_key() == old(graph).spec_key(),
            final(graph).spec_len() == old(graph).spec_len(),
            same_kinds(*old(graph), *final(graph)),
            edges_added_to(*old(graph), *final(graph), tasks@.map_values(|t: SubflowTask| t.id), self.id.0 as int),
    {
        let ids = subflow_task_ids(tasks);
        add_edges_to(graph, &ids, self.id);
        *self
    }
}

} // verus!
