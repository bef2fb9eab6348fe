use vstd::prelude::*;
use crate::graph::{FlowGraph, FlowTaskKind, Node, TaskId, nodes_wf, node_ok};
use crate::inspect::roots_of;
use crate::text::opt_view;

verus! {

/// One task of a graph frozen for a run: successors as positions, and how many
/// predecessors it has in all and how many it must wait for.
pub struct NodeSnapshot {
    pub id: TaskId,
    pub name: Option<String>,
    pub kind: FlowTaskKind,
    pub successors: Vec<usize>,
    pub total_predecessor_count: usize,
    pub predecessor_count: usize,
    pub to_acquire: Vec<usize>,
    pub to_release: Vec<usize>,
}

/// A graph frozen for a run: its tasks, the tasks without predecessors, and the
/// number of strong dependencies each task waits for at the start of a run.
pub struct GraphSnapshot {
    pub nodes: Vec<NodeSnapshot>,
    pub roots: Vec<usize>,
    pub initial_pending: Vec<usize>,
}

/// The number of predecessors among the first `k` of `preds` that are not
/// condition tasks.
pub open spec fn strong_pred_count(nodes: Seq<Node>, preds: Seq<TaskId>, k: int) -> nat
    decreases k,
{
    if k <= 0 {
        0
    } else {
        strong_pred_count(nodes, preds, k - 1) + (if !nodes[preds[k - 1].0 as int].kind.spec_is_condition() {
            1nat
        } else {
            0nat
        })
    }
}

pub open spec fn positions_of(v: Seq<TaskId>) -> Seq<usize> {
    v.map_values(|t: TaskId| t.0)
}

/// The record of task `i` in a snapshot of `nodes`.
pub open spec fn node_snapshot_of(nodes: Seq<Node>, i: int, s: NodeSnapshot) -> bool {
    &&& s.id == TaskId(i as usize)
    &&& opt_view(s.name) == opt_view(nodes[i].name)
    &&& s.kind == nodes[i].kind
    &&& s.successors@ == positions_of(nodes[i].successors@)
    &&& s.total_predecessor_count == nodes[i].predecessors@.len()
    &&& s.predecessor_count == strong_pred_count(nodes, nodes[i].predecessors@, nodes[i].predecessors@.len() as int)
    &&& s.to_acquire@ == nodes[i].to_acquire@
    &&& s.to_release@ == nodes[i].to_release@
}

/// What `snapshot` returns for a graph with these tasks.
pub open spec fn snapshot_of(nodes: Seq<Node>, s: GraphSnapshot) -> bool {
    &&& s.nodes@.len() == nodes.len()
    &&& forall|i: int| 0 <= i < nodes.len() ==> node_snapshot_of(nodes, i, #[trigger] s.nodes@[i])
    &&& s.roots@ == positions_of(roots_of(nodes, nodes.len() as int))
    &&& s.initial_pending@.len() == nodes.len()
    &&& forall|i: int| 0 <= i < nodes.len() ==> #[trigger] s.initial_pending@[i] == s.nodes@[i].predecessor_count
}

/// The shape a snapshot has when it was taken from a well-formed graph: positions
/// in range, distinct successors, and root and pending lists that match the tasks.
pub open spec fn snapshot_wf(s: GraphSnapshot) -> bool {
    &&& s.initial_pending@.len() == s.nodes@.len()
    &&& forall|i: int|
        #![trigger s.nodes@[i]]
        0 <= i < s.nodes@.len() ==> {
            &&& forall|k: int| 0 <= k < s.nodes@[i].successors@.len() ==> #[trigger] s.nodes@[i].successors@[k] < s.nodes@.len()
            &&& forall|a: int, b: int| 0 <= a < b < s.nodes@[i].successors@.len() ==> #[trigger] s.nodes@[i].successors@[a] != #[trigger] s.nodes@[i].successors@[b]
            &&& s.initial_pending@[i] == s.nodes@[i].predecessor_count
        }
    &&& forall|k: int| 0 <= k < s.roots@.len() ==> #[trigger] s.roots@[k] < s.nodes@.len()
}

fn positions(v: &Vec<TaskId>) -> (r: Vec<usize>)
    ensures
        r@ == positions_of(v@),
{
    let mut r: Vec<usize> = Vec::new();
    let mut i: usize = 0;
    while i < v.len()
        invariant
            i <= v@.len(),
            r@ == positions_of(v@.subrange(0, i as int)),
        decreases v@.len() - i,
    {
        r.push(v[i].0);
        proof {
            assert(positions_of(v@.subrange(0, i + 1)) =~= positions_of(v@.subrange(0, i as int)).push(v@[i as int].0));
        }
        i = i + 1;
    }
    proof {
        assert(v@.subrange(0, v@.len() as int) =~= v@);
    }
    r
}

fn copy_usizes(v: &Vec<usize>) -> (r: Vec<usize>)
    ensures
        r@ == v@,
{
    let mut r: Vec<usize> = Vec::new();
    let mut i: usize = 0;
    while i < v.len()
        invariant
            i <= v@.len(),
            r@ == v@.subrange(0, i as int),
        decreases v@.len() - i,
    {
        r.push(v[i]);
        proof {
            assert(r@ =~= v@.subrange(0, i + 1));
        }
        i = i + 1;
    }
    proof {
        assert(v@.subrange(0, v@.len() as int) =~= v@);
    }
    r
}

proof fn lemma_strong_pred_count_bound(nodes: Seq<Node>, preds: Seq<TaskId>, k: int)
    ensures
        strong_pred_count(nodes, preds, k) <= if k < 0 { 0 } else { k },
    decreases k,
{
    if k > 0 {
        lemma_strong_pred_count_bound(nodes, preds, k - 1);
    }
}

/// Freezes a graph for a run.
pub fn snapshot_nodes(nodes: &Vec<Node>) -> (s: GraphSnapshot)
    requires
        nodes_wf(nodes@),
    ensures
        snapshot_of(nodes@, s),
        snapshot_wf(s),
{
    let n = nodes.len();
    let ghost ns = nodes@;
    let mut snaps: Vec<NodeSnapshot> = Vec::new();
    let mut roots: Vec<usize> = Vec::new();
    let mut pending: Vec<usize> = Vec::new();
    let mut i: usize = 0;
    while i < n
        invariant
            i <= n,
            n == nodes@.len(),
            ns == nodes@,
            nodes_wf(ns),
            snaps@.len() == i,
            pending@.len() == i,
            forall|k: int| 0 <= k < i ==> node_snapshot_of(ns, k, #[trigger] snaps@[k]),
            forall|k: int| 0 <= k < i ==> #[trigger] pending@[k] == snaps@[k].predecessor_count,
            roots@ == positions_of(roots_of(ns, i as int)),
        decreases n - i,
    {
        let node = &nodes[i];
        proof {
            assert(node_ok(ns[i as int], n as int));
        }
        let mut strong: usize = 0;
        let mut k: usize = 0;
        while k < node.predecessors.len()
            invariant
                k <= node.predecessors@.len(),
                i < n,
                n == nodes@.len(),
                ns == nodes@,
                *node == ns[i as int],
                node_ok(*node, n as int),
                strong == strong_pred_count(ns, node.predecessors@, k as int),
            decreases node.predecessors@.len() - k,
        {
            proof {
                lemma_strong_pred_count_bound(ns, node.predecessors@, k as int);
            }
            let p = node.predecessors[k].0;
            if !nodes[p].kind.is_condition() {
                strong = strong + 1;
            }
            k = k + 1;
        }
        let name = match &node.name {
            Some(nm) => Some(nm.clone()),
            None => None,
        };
        snaps.push(
            NodeSnapshot {
                id: TaskId(i),
                name,
                kind: node.kind,
                successors: positions(&node.successors),
                total_predecessor_count: node.predecessors.len(),
                predecessor_count: strong,
                to_acquire: copy_usizes(&node.to_acquire),
                to_release: copy_usizes(&node.to_release),
            },
        );
        pending.push(strong);
        if node.predecessors.len() == 0 {
            roots.push(i);
        }
        proof {
            assert(positions_of(roots_of(ns, i + 1)) =~= if ns[i as int].predecessors@.len() == 0 {
                positions_of(roots_of(ns, i as int)).push(i)
            } else {
                positions_of(roots_of(ns, i as int))
            });
        }
        i = i + 1;
    }
    let s = GraphSnapshot { nodes: snaps, roots, initial_pending: pending };
    proof {
        assert forall|j: int| #![trigger s.nodes@[j]] 0 <= j < s.nodes@.len() implies {
            &&& forall|k: int| 0 <= k < s.nodes@[j].successors@.len() ==> #[trigger] s.nodes@[j].successors@[k] < s.nodes@.len()
            &&& forall|a: int, b: int| 0 <= a < b < s.nodes@[j].successors@.len() ==> #[trigger] s.nodes@[j].successors@[a] != #[trigger] s.nodes@[j].successors@[b]
            &&& s.initial_pending@[j] == s.nodes@[j].predecessor_count
        } by {
            assert(node_snapshot_of(ns, j, s.nodes@[j]));
            assert(node_ok(ns[j], n as int));
            assert forall|a: int, b: int| 0 <= a < b < s.nodes@[j].successors@.len() implies #[trigger] s.nodes@[j].successors@[a] != #[trigger] s.nodes@[j].successors@[b] by {
                assert(ns[j].successors@[a] != ns[j].successors@[b]);
            }
        }
        lemma_roots_in_range(ns, n as int);
    }
    s
}

proof fn lemma_roots_in_range(nodes: Seq<Node>, k: int)
    requires
        0 <= k <= nodes.len(),
        nodes.len() <= usize::MAX,
    ensures
        forall|j: int| 0 <= j < roots_of(nodes, k).len() ==> #[trigger] roots_of(nodes, k)[j].0 < k,
    decreases k,
{
    if k > 0 {
        lemma_roots_in_range(nodes, k - 1);
        let prev = roots_of(nodes, k - 1);
        let cur = roots_of(nodes, k);
        assert forall|j: int| 0 <= j < cur.len() implies #[trigger] cur[j].0 < k by {
            if j < prev.len() {
                assert(cur[j] == prev[j]);
            } else {
                assert(cur[j] == TaskId((k - 1) as usize));
            }
        }
    }
}

impl FlowGraph {
    /// Freezes the graph for a run.
    pub fn snapshot(&self) -> (s: GraphSnapshot)
        requires
            self.wf(),
        ensures
            snapshot_of(self.spec_nodes(), s),
            snapshot_wf(s),
    {
        snapshot_nodes(self.nodes())
    }
}

} // verus!
