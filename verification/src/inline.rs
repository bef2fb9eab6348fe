use vstd::prelude::*;
use vstd::set_lib::{lemma_int_range, lemma_len_subset, set_int_range};
use crate::cycles::{cycle_result, is_strong_order, lemma_distinct_bounded_len, seq_has, strong_edge};
use crate::inspect::roots_of;
use crate::run::{InlineRun, TaskOutcome, dec_wrapping, spec_notified, spec_ready};
use crate::snapshot::{GraphSnapshot, node_snapshot_of, positions_of, snapshot_of, snapshot_wf, strong_pred_count};
use crate::graph::{Node, TaskId, has_id, ids_below, ids_view, node_ok, nodes_wf};

verus! {

broadcast use vstd::set::group_set_axioms;

pub open spec fn succ_of(s: GraphSnapshot, u: int) -> Seq<usize> {
    s.nodes@[u].successors@
}

/// The tasks of the snapshot that list `v` among their successors.
pub open spec fn preds_of(s: GraphSnapshot, v: usize) -> Set<int> {
    Set::new(|u: int| 0 <= u < s.nodes@.len() && succ_of(s, u).contains(v))
}

/// `rank` grows along every edge, so the graph has no cycle.
pub open spec fn ranked(s: GraphSnapshot, rank: spec_fn(int) -> nat) -> bool {
    forall|u: int, k: int|
        0 <= u < s.nodes@.len() && 0 <= k < succ_of(s, u).len() ==> rank(u) < rank(#[trigger] succ_of(s, u)[k] as int)
}

/// A snapshot of an acyclic graph without condition tasks: each task waits
/// for all of its predecessors, and the roots are exactly the tasks without
/// predecessors, each listed once.
pub open spec fn plain_dag(s: GraphSnapshot) -> bool {
    &&& snapshot_wf(s)
    &&& forall|u: int| 0 <= u < s.nodes@.len() ==> !(#[trigger] s.nodes@[u]).kind.spec_is_condition()
    &&& forall|v: usize| v < s.nodes@.len() ==> #[trigger] s.initial_pending@[v as int] == preds_of(s, v).len()
    &&& forall|a: int, b: int| 0 <= a < b < s.roots@.len() ==> s.roots@[a] != s.roots@[b]
    &&& forall|v: usize| v < s.nodes@.len() ==> (s.roots@.contains(v) <==> #[trigger] preds_of(s, v).len() == 0)
    &&& exists|rank: spec_fn(int) -> nat| ranked(s, rank)
}

pub open spec fn distinct(q: Seq<usize>) -> bool {
    forall|a: int, b: int| 0 <= a < b < q.len() ==> q[a] != q[b]
}

/// Every task appears in `order`, once, and before each of its successors.
pub open spec fn topological_order(s: GraphSnapshot, order: Seq<usize>) -> bool {
    &&& distinct(order)
    &&& forall|i: int| 0 <= i < order.len() ==> #[trigger] order[i] < s.nodes@.len()
    &&& forall|v: usize| v < s.nodes@.len() ==> #[trigger] order.contains(v)
    &&& edges_forward(s, order)
}

/// Every edge between two tasks of `q` goes from an earlier to a later one.
pub open spec fn edges_forward(s: GraphSnapshot, q: Seq<usize>) -> bool {
    forall|i: int, j: int|
        #![trigger q[i], q[j]]
        0 <= i < q.len() && 0 <= j < q.len() && succ_of(s, q[i] as int).contains(q[j]) ==> i < j
}

proof fn lemma_preds_finite(s: GraphSnapshot, v: usize)
    ensures
        preds_of(s, v).finite(),
        preds_of(s, v).subset_of(set_int_range(0, s.nodes@.len() as int)),
{
    lemma_int_range(0, s.nodes@.len() as int);
    lemma_len_subset(preds_of(s, v), set_int_range(0, s.nodes@.len() as int));
}

/// Notifying distinct successors lowers each of their counts by one.
proof fn lemma_notified(p: Seq<usize>, succ: Seq<usize>, k: int, v: usize)
    requires
        0 <= k <= succ.len(),
        distinct(succ),
        forall|j: int| 0 <= j < succ.len() ==> #[trigger] succ[j] < p.len(),
    ensures
        spec_notified(p, succ, k).len() == p.len(),
        v < p.len() ==> spec_notified(p, succ, k)[v as int] == (if succ.subrange(0, k).contains(v) {
            dec_wrapping(p[v as int])
        } else {
            p[v as int]
        }),
    decreases k,
{
    if k > 0 {
        lemma_notified(p, succ, k - 1, v);
        lemma_notified(p, succ, k - 1, succ[k - 1]);
        let w = succ[k - 1];
        assert(!succ.subrange(0, k - 1).contains(succ[k - 1])) by {
            if succ.subrange(0, k - 1).contains(succ[k - 1]) {
                let j = choose|j: int| 0 <= j < k - 1 && #[trigger] succ.subrange(0, k - 1)[j] == succ[k - 1];
                assert(succ[j] == succ[k - 1]);
            }
        }
        if v < p.len() {
            if v == w {
            } else {
                assert(succ.subrange(0, k).contains(v) == succ.subrange(0, k - 1).contains(v)) by {
                    if succ.subrange(0, k).contains(v) {
                        let j = choose|j: int| 0 <= j < k && #[trigger] succ.subrange(0, k)[j] == v;
                        assert(succ.subrange(0, k)[j] == succ[j]);
                        assert(j < k - 1);
                        assert(succ.subrange(0, k - 1)[j] == v);
                    }
                    if succ.subrange(0, k - 1).contains(v) {
                        let j = choose|j: int| 0 <= j < k - 1 && #[trigger] succ.subrange(0, k - 1)[j] == v;
                        assert(succ.subrange(0, k)[j] == v);
                    }
                }
            }
            assert(succ.subrange(0, k)[k - 1] == succ[k - 1]);
        }
    }
}

/// The ready list holds the successors whose count was one, each once.
proof fn lemma_ready(p: Seq<usize>, succ: Seq<usize>, k: int)
    requires
        0 <= k <= succ.len(),
        distinct(succ),
    ensures
        distinct(spec_ready(p, succ, k)),
        forall|x: usize| #[trigger] spec_ready(p, succ, k).contains(x) <==> (succ.subrange(0, k).contains(x) && p[x as int] == 1),
    decreases k,
{
    if k > 0 {
        lemma_ready(p, succ, k - 1);
        let r = spec_ready(p, succ, k - 1);
        let x = succ[k - 1];
        assert(!succ.subrange(0, k - 1).contains(x)) by {
            if succ.subrange(0, k - 1).contains(x) {
                let j = choose|j: int| 0 <= j < k - 1 && #[trigger] succ.subrange(0, k - 1)[j] == x;
                assert(succ[j] == x);
            }
        }
        assert forall|y: usize| succ.subrange(0, k).contains(y) <==> (succ.subrange(0, k - 1).contains(y) || y == x) by {
            if succ.subrange(0, k).contains(y) {
                let j = choose|j: int| 0 <= j < k && #[trigger] succ.subrange(0, k)[j] == y;
                if j < k - 1 {
                    assert(succ.subrange(0, k - 1)[j] == y);
                }
            }
            if succ.subrange(0, k - 1).contains(y) {
                let j = choose|j: int| 0 <= j < k - 1 && #[trigger] succ.subrange(0, k - 1)[j] == y;
                assert(succ.subrange(0, k)[j] == y);
            }
            if y == x {
                assert(succ.subrange(0, k)[k - 1] == y);
            }
        }
        if p[x as int] == 1 {
            assert forall|a: int, b: int| 0 <= a < b < r.push(x).len() implies r.push(x)[a] != r.push(x)[b] by {
                if b == r.len() {
                    assert(r.contains(r[a]));
                }
            }
            assert forall|y: usize| #[trigger] r.push(x).contains(y) <==> r.contains(y) || y == x by {
                if r.push(x).contains(y) {
                    let j = choose|j: int| 0 <= j < r.push(x).len() && #[trigger] r.push(x)[j] == y;
                    if j < r.len() {
                        assert(r[j] == y);
                    }
                }
                if r.contains(y) {
                    let j = choose|j: int| 0 <= j < r.len() && #[trigger] r[j] == y;
                    assert(r.push(x)[j] == y);
                }
                if y == x {
                    assert(r.push(x)[r.len() as int] == y);
                }
            }
        }
    } else {
        assert(succ.subrange(0, 0) =~= Seq::<usize>::empty());
    }
}

/// The tasks taken so far.
pub open spec fn taken(q: Seq<usize>, h: int) -> Set<int> {
    Set::new(|u: int| exists|i: int| 0 <= i < h && q[i] as int == u)
}

/// The state of an inline run of a plain acyclic snapshot: the queue holds
/// distinct tasks, each scheduled task's predecessors were all taken, tasks
/// appear in the queue after their predecessors, every task not yet taken
/// waits for exactly its predecessors not yet taken, and a task all of whose
/// predecessors were taken is scheduled.
pub open spec fn inline_invariant(s: GraphSnapshot, q: Seq<usize>, h: int, pending: Seq<usize>) -> bool {
    let n = s.nodes@.len() as int;
    &&& 0 <= h <= q.len()
    &&& distinct(q)
    &&& forall|i: int| 0 <= i < q.len() ==> #[trigger] q[i] < n
    &&& pending.len() == n
    &&& forall|i: int| 0 <= i < q.len() ==> preds_of(s, #[trigger] q[i]).subset_of(taken(q, h))
    &&& forall|v: usize| v < n && !taken(q, h).contains(v as int) ==> #[trigger] pending[v as int] == preds_of(s, v).difference(taken(q, h)).len()
    &&& forall|v: usize| v < n && #[trigger] preds_of(s, v).subset_of(taken(q, h)) ==> q.contains(v)
    &&& edges_forward(s, q)
}

proof fn lemma_queue_member(q: Seq<usize>, i: int)
    requires
        0 <= i < q.len(),
    ensures
        q.contains(q[i]),
{
}

/// Taking the next task keeps the invariant.
proof fn lemma_step(s: GraphSnapshot, q: Seq<usize>, h: int, pending: Seq<usize>, rank: spec_fn(int) -> nat)
    requires
        plain_dag(s),
        ranked(s, rank),
        inline_invariant(s, q, h, pending),
        h < q.len(),
    ensures
        ({
            let t = q[h] as int;
            let succ = succ_of(s, t);
            let q2 = q + spec_ready(pending, succ, succ.len() as int);
            let p2 = spec_notified(pending, succ, succ.len() as int).update(t, s.initial_pending@[t]);
            inline_invariant(s, q2, h + 1, p2)
        }),
{
    let n = s.nodes@.len() as int;
    let t = q[h] as int;
    let succ = succ_of(s, t);
    let len = succ.len() as int;
    let ready = spec_ready(pending, succ, len);
    let q2 = q + ready;
    let notified = spec_notified(pending, succ, len);
    let p2 = notified.update(t, s.initial_pending@[t]);
    let c = taken(q, h);
    let c2 = taken(q2, h + 1);
    assert(s.nodes@[t].successors@ == succ);
    assert(distinct(succ));
    assert(forall|j: int| 0 <= j < succ.len() ==> #[trigger] succ[j] < n);
    lemma_ready(pending, succ, len);
    lemma_notified(pending, succ, len, 0);
    assert(succ.subrange(0, len) =~= succ);
    // the taken set grows by t
    assert forall|u: int| c2.contains(u) <==> c.contains(u) || u == t by {
        if c2.contains(u) {
            let i = choose|i: int| 0 <= i < h + 1 && #[trigger] q2[i] as int == u;
            if i < h {
                assert(c.contains(u));
            }
        }
        if c.contains(u) {
            let i = choose|i: int| 0 <= i < h && #[trigger] q[i] as int == u;
            assert(q2[i] as int == u);
        }
        if u == t {
            assert(q2[h] as int == u);
        }
    }
    assert(!c.contains(t)) by {
        if c.contains(t) {
            let i = choose|i: int| 0 <= i < h && #[trigger] q[i] as int == t;
            assert(q[i] == q[h]);
        }
    }
    // successors of t are not scheduled yet, and t is one of their predecessors
    assert forall|v: usize| #[trigger] succ.contains(v) implies !q.contains(v) && preds_of(s, v).contains(t) && v as int != t by {
        assert(preds_of(s, v).contains(t));
        if q.contains(v) {
            let i = choose|i: int| 0 <= i < q.len() && #[trigger] q[i] == v;
            assert(preds_of(s, q[i]).subset_of(c));
        }
        let k = choose|k: int| 0 <= k < succ.len() && #[trigger] succ[k] == v;
        assert(rank(t) < rank(succ_of(s, t)[k] as int));
    }
    // counts of tasks not taken
    assert forall|v: usize| v < n && !c2.contains(v as int) implies #[trigger] p2[v as int] == preds_of(s, v).difference(c2).len() by {
        lemma_preds_finite(s, v);
        lemma_notified(pending, succ, len, v);
        let d = preds_of(s, v).difference(c);
        assert(preds_of(s, v).difference(c2) =~= d.remove(t));
        if succ.contains(v) {
            assert(d.contains(t));
        } else {
            assert(!d.contains(t)) by {
                if d.contains(t) {
                    assert(succ_of(s, t).contains(v));
                }
            }
        }
    }
    // the queue stays distinct and within range
    assert forall|a: int, b: int| 0 <= a < b < q2.len() implies q2[a] != q2[b] by {
        if b >= q.len() && a < q.len() {
            let x = q2[b];
            assert(ready.contains(x));
            assert(succ.contains(x));
            lemma_queue_member(q, a);
        }
    }
    assert forall|i: int| 0 <= i < q2.len() implies #[trigger] q2[i] < n by {
        if i >= q.len() {
            assert(ready.contains(q2[i]));
        }
    }
    // scheduled tasks have all predecessors taken
    assert forall|i: int| 0 <= i < q2.len() implies preds_of(s, #[trigger] q2[i]).subset_of(c2) by {
        if i < q.len() {
            assert(q2[i] == q[i]);
            assert(preds_of(s, q[i]).subset_of(c));
        } else {
            let v = q2[i];
            assert(ready.contains(v));
            lemma_preds_finite(s, v);
            let d = preds_of(s, v).difference(c);
            assert(pending[v as int] == 1);
            assert(d.len() == 1);
            assert(d.contains(t));
            assert(d.remove(t).len() == 0);
            assert forall|u: int| preds_of(s, v).contains(u) implies c2.contains(u) by {
                if !c.contains(u) && u != t {
                    assert(d.remove(t).contains(u));
                }
            }
        }
    }
    // a task whose predecessors were all taken is scheduled
    assert forall|v: usize| v < n && #[trigger] preds_of(s, v).subset_of(c2) implies q2.contains(v) by {
        if preds_of(s, v).subset_of(c) {
            let i = choose|i: int| 0 <= i < q.len() && #[trigger] q[i] == v;
            assert(q2[i] == v);
        } else {
            let u = choose|u: int| #[trigger] preds_of(s, v).contains(u) && !c.contains(u);
            assert(u == t);
            assert(succ_of(s, t).contains(v));
            assert(succ.contains(v));
            assert(!q.contains(v));
            assert(!c.contains(v as int)) by {
                if c.contains(v as int) {
                    let i = choose|i: int| 0 <= i < h && #[trigger] q[i] as int == v as int;
                    assert(q.contains(q[i]));
                }
            }
            lemma_preds_finite(s, v);
            let d = preds_of(s, v).difference(c);
            assert(d =~= set![t]);
            assert(d.len() == 1);
            assert(ready.contains(v));
            let j = choose|j: int| 0 <= j < ready.len() && #[trigger] ready[j] == v;
            assert(q2[q.len() + j] == v);
        }
    }
    // edges go forward in the queue
    assert forall|i: int, j: int|
        #![trigger q2[i], q2[j]]
        0 <= i < q2.len() && 0 <= j < q2.len() && succ_of(s, q2[i] as int).contains(q2[j]) implies i < j by {
        if i < q.len() && j < q.len() {
            assert(q2[i] == q[i] && q2[j] == q[j]);
        } else if i >= q.len() {
            let u = q2[i] as int;
            assert(preds_of(s, q2[j]).contains(u));
            assert(preds_of(s, q2[j]).subset_of(c2));
            assert(c2.contains(u));
            let i2 = choose|i2: int| 0 <= i2 < h + 1 && #[trigger] q2[i2] as int == u;
            assert(q2[i2] == q2[i]);
        }
    }
}

/// Runs a plain acyclic snapshot inline, every task completing normally,
/// and returns the order in which the tasks ran.
pub fn inline_run_order(s: &GraphSnapshot) -> (order: Vec<usize>)
    requires
        plain_dag(*s),
    ensures
        topological_order(*s, order@),
{
    let ghost rank = choose|rank: spec_fn(int) -> nat| ranked(*s, rank);
    let ghost n = s.nodes@.len() as int;
    let mut run = InlineRun::new(s);
    let mut order: Vec<usize> = Vec::new();
    proof {
        let q = run.spec_queue();
        assert forall|v: usize| v < n && !taken(q, 0).contains(v as int) implies #[trigger] run.spec_pending()[v as int] == preds_of(*s, v).difference(taken(q, 0)).len() by {
            assert(preds_of(*s, v).difference(taken(q, 0)) =~= preds_of(*s, v));
        }
        assert forall|i: int| 0 <= i < q.len() implies preds_of(*s, #[trigger] q[i]).subset_of(taken(q, 0)) by {
            assert(s.roots@.contains(q[i]));
            lemma_preds_finite(*s, q[i]);
            assert(preds_of(*s, q[i]).len() == 0);
        }
        assert forall|v: usize| v < n && #[trigger] preds_of(*s, v).subset_of(taken(q, 0)) implies q.contains(v) by {
            lemma_preds_finite(*s, v);
            assert(taken(q, 0) =~= Set::<int>::empty());
            assert(preds_of(*s, v) =~= Set::<int>::empty());
            assert(preds_of(*s, v).len() == 0);
        }
        assert forall|i: int, j: int|
            #![trigger q[i], q[j]]
            0 <= i < q.len() && 0 <= j < q.len() && succ_of(*s, q[i] as int).contains(q[j]) implies i < j by {
            assert(s.roots@.contains(q[j]));
            lemma_preds_finite(*s, q[j]);
            assert(preds_of(*s, q[j]).contains(q[i] as int));
        }
        assert(inline_invariant(*s, q, 0, run.spec_pending()));
        lemma_distinct_bounded_len(q, n);
    }
    loop
        invariant
            plain_dag(*s),
            ranked(*s, rank),
            n == s.nodes@.len(),
            run.wf(*s),
            inline_invariant(*s, run.spec_queue(), run.spec_head(), run.spec_pending()),
            order@ == run.spec_queue().subrange(0, run.spec_head()),
            run.spec_queue().len() <= n,
        decreases 2 * n - run.spec_head() - run.spec_queue().len(),
    {
        let ghost q = run.spec_queue();
        let ghost h = run.spec_head();
        let ghost p = run.spec_pending();
        match run.next_task(s) {
            None => {
                proof {
                    assert forall|v: usize| v < n implies #[trigger] run.spec_queue().contains(v) by {
                        lemma_all_scheduled_any(*s, run.spec_queue(), run.spec_pending(), rank, v);
                    }
                    assert(order@ =~= run.spec_queue());
                }
                return order;
            },
            Some(t) => {
                order.push(t);
                proof {
                    assert(order@ =~= q.subrange(0, h + 1));
                    assert(s.nodes@[t as int].successors@ == succ_of(*s, t as int));
                }
                run.complete(s, t, &TaskOutcome::Done);
                proof {
                    lemma_step(*s, q, h, p, rank);
                    assert(run.spec_queue().subrange(0, h + 1) =~= q.subrange(0, h + 1));
                    lemma_distinct_bounded_len(run.spec_queue(), n);
                }
            },
        }
    }
}

/// At the end of a run of a plain acyclic snapshot every task was scheduled.
proof fn lemma_all_scheduled_any(s: GraphSnapshot, q: Seq<usize>, pending: Seq<usize>, rank: spec_fn(int) -> nat, v: usize)
    requires
        plain_dag(s),
        ranked(s, rank),
        inline_invariant(s, q, q.len() as int, pending),
        v < s.nodes@.len(),
    ensures
        q.contains(v),
    decreases rank(v as int),
{
    let c = taken(q, q.len() as int);
    assert forall|u: int| preds_of(s, v).contains(u) implies c.contains(u) by {
        let k = choose|k: int| 0 <= k < succ_of(s, u).len() && #[trigger] succ_of(s, u)[k] == v;
        assert(rank(u) < rank(succ_of(s, u)[k] as int));
        assert(0 <= u < s.nodes@.len());
        assert(s.nodes@.len() == s.nodes.len());
        lemma_all_scheduled_any(s, q, pending, rank, u as usize);
        let i = choose|i: int| 0 <= i < q.len() && #[trigger] q[i] == u as usize;
        assert(q[i] as int == u);
    }
    assert(preds_of(s, v).subset_of(c));
}


proof fn lemma_strong_count_all(nodes: Seq<Node>, preds: Seq<TaskId>, k: int)
    requires
        0 <= k <= preds.len(),
        forall|u: int| 0 <= u < nodes.len() ==> !(#[trigger] nodes[u]).kind.spec_is_condition(),
        ids_below(preds, nodes.len() as int),
    ensures
        strong_pred_count(nodes, preds, k) == k,
    decreases k,
{
    if k > 0 {
        lemma_strong_count_all(nodes, preds, k - 1);
        assert(0 <= preds[k - 1].0 < nodes.len());
    }
}

proof fn lemma_positions_contains(v: Seq<TaskId>, x: usize)
    ensures
        positions_of(v).contains(x) <==> has_id(v, TaskId(x)),
{
    if positions_of(v).contains(x) {
        let i = choose|i: int| 0 <= i < positions_of(v).len() && #[trigger] positions_of(v)[i] == x;
        assert(v[i] == TaskId(x));
    }
    if has_id(v, TaskId(x)) {
        let i = choose|i: int| 0 <= i < v.len() && v[i] == TaskId(x);
        assert(positions_of(v)[i] == x);
    }
}

/// In a snapshot of a well-formed graph the tasks that list `v` as a
/// successor are exactly the predecessors that `v` records.
proof fn lemma_preds_match(nodes: Seq<Node>, s: GraphSnapshot, v: usize)
    requires
        nodes_wf(nodes),
        snapshot_of(nodes, s),
        v < nodes.len(),
    ensures
        preds_of(s, v) == ids_view(nodes[v as int].predecessors@).to_set(),
        preds_of(s, v).len() == nodes[v as int].predecessors@.len(),
{
    let preds = nodes[v as int].predecessors@;
    let ids = ids_view(preds);
    assert(node_ok(nodes[v as int], nodes.len() as int));
    assert forall|u: int| #[trigger] preds_of(s, v).contains(u) <==> ids.to_set().contains(u) by {
        if 0 <= u < nodes.len() {
            assert(node_snapshot_of(nodes, u, s.nodes@[u]));
            lemma_positions_contains(nodes[u].successors@, v);
            assert(has_id(nodes[u].successors@, TaskId(v as int as usize)) <==> has_id(
                nodes[v as int].predecessors@,
                TaskId(u as usize),
            ));
        }
        if ids.to_set().contains(u) {
            let i = choose|i: int| 0 <= i < ids.len() && #[trigger] ids[i] == u;
            assert(0 <= preds[i].0 < nodes.len());
            assert(preds[i] == TaskId(u as usize));
            assert(has_id(preds, TaskId(u as usize)));
        }
        if 0 <= u < nodes.len() && has_id(preds, TaskId(u as usize)) {
            let i = choose|i: int| 0 <= i < preds.len() && preds[i] == TaskId(u as usize);
            assert(ids[i] == u);
        }
    }
    assert(preds_of(s, v) =~= ids.to_set());
    assert(ids.no_duplicates()) by {
        assert forall|a: int, b: int| 0 <= a < ids.len() && 0 <= b < ids.len() && a != b implies ids[a] != ids[b] by {
            if a < b {
                assert(preds[a] != preds[b]);
            } else {
                assert(preds[b] != preds[a]);
            }
            assert(0 <= preds[a].0 < nodes.len());
            assert(0 <= preds[b].0 < nodes.len());
        }
    }
    ids.unique_seq_to_set();
}


proof fn lemma_roots_of_props(nodes: Seq<Node>, k: int)
    requires
        0 <= k <= nodes.len(),
        nodes.len() <= usize::MAX,
    ensures
        forall|a: int, b: int|
            0 <= a < b < roots_of(nodes, k).len() ==> (#[trigger] roots_of(nodes, k)[a]).0 < (#[trigger] roots_of(nodes, k)[b]).0,
        forall|a: int| 0 <= a < roots_of(nodes, k).len() ==> (#[trigger] roots_of(nodes, k)[a]).0 < k,
        forall|v: int|
            0 <= v < k ==> (#[trigger] has_id(roots_of(nodes, k), TaskId(v as usize)) <==> nodes[v].predecessors@.len() == 0),
    decreases k,
{
    if k > 0 {
        lemma_roots_of_props(nodes, k - 1);
        let prev = roots_of(nodes, k - 1);
        let cur = roots_of(nodes, k);
        assert forall|v: int| 0 <= v < k implies (#[trigger] has_id(cur, TaskId(v as usize)) <==> nodes[v].predecessors@.len() == 0) by {
            if v < k - 1 {
                assert(has_id(prev, TaskId(v as usize)) <==> nodes[v].predecessors@.len() == 0);
                if has_id(prev, TaskId(v as usize)) {
                    let i = choose|i: int| 0 <= i < prev.len() && prev[i] == TaskId(v as usize);
                    assert(cur[i] == prev[i]);
                }
                if has_id(cur, TaskId(v as usize)) {
                    let i = choose|i: int| 0 <= i < cur.len() && cur[i] == TaskId(v as usize);
                    if i < prev.len() {
                        assert(cur[i] == prev[i]);
                    } else {
                        assert(cur[i] == TaskId((k - 1) as usize));
                    }
                }
            } else {
                if nodes[v].predecessors@.len() == 0 {
                    assert(cur[cur.len() - 1] == TaskId(v as usize));
                }
                if has_id(cur, TaskId(v as usize)) {
                    let i = choose|i: int| 0 <= i < cur.len() && cur[i] == TaskId(v as usize);
                    if i < prev.len() {
                        assert(cur[i] == prev[i]);
                        assert(prev[i].0 < k - 1);
                    }
                }
            }
        }
        assert forall|a: int, b: int| 0 <= a < b < cur.len() implies (#[trigger] cur[a]).0 < (#[trigger] cur[b]).0 by {
            if b < prev.len() {
                assert(cur[a] == prev[a] && cur[b] == prev[b]);
            } else {
                assert(cur[a] == prev[a]);
                assert(prev[a].0 < k - 1);
            }
        }
        assert forall|a: int| 0 <= a < cur.len() implies (#[trigger] cur[a]).0 < k by {
            if a < prev.len() {
                assert(cur[a] == prev[a]);
            }
        }
    }
}

/// The position of `u` in `order`.
spec fn position_in(order: Seq<int>, u: int) -> nat {
    (choose|p: int| 0 <= p < order.len() && #[trigger] order[p] == u) as nat
}

proof fn lemma_order_ranks(nodes: Seq<Node>, s: GraphSnapshot, order: Seq<int>)
    requires
        nodes_wf(nodes),
        snapshot_of(nodes, s),
        forall|u: int| 0 <= u < nodes.len() ==> !(#[trigger] nodes[u]).kind.spec_is_condition(),
        is_strong_order(nodes, order),
        forall|v: int| 0 <= v < nodes.len() ==> #[trigger] seq_has(order, v),
    ensures
        ranked(s, |u: int| position_in(order, u)),
{
    let rank = |u: int| position_in(order, u);
    assert forall|u: int, k: int|
        0 <= u < s.nodes@.len() && 0 <= k < succ_of(s, u).len() implies rank(u) < rank(#[trigger] succ_of(s, u)[k] as int) by {
        assert(node_snapshot_of(nodes, u, s.nodes@[u]));
        assert(node_ok(nodes[u], nodes.len() as int));
        let v = succ_of(s, u)[k] as int;
        assert(succ_of(s, u)[k] == nodes[u].successors@[k].0);
        assert(0 <= v < nodes.len());
        assert(nodes[u].successors@[k] == TaskId(v as usize));
        assert(has_id(nodes[u].successors@, TaskId(v as usize)));
        assert(strong_edge(nodes, u, v));
        assert(seq_has(order, v));
        assert(seq_has(order, u));
        let pv = choose|p: int| 0 <= p < order.len() && #[trigger] order[p] == v;
        let pu = choose|p: int| 0 <= p < order.len() && #[trigger] order[p] == u;
        assert(strong_edge(nodes, u, order[pv]));
        let q = choose|q: int| 0 <= q < pv && #[trigger] order[q] == u;
        if pu != q {
            if pu < q {
                assert(order[pu] != order[q]);
            } else {
                assert(order[q] != order[pu]);
            }
        }
        assert(rank(u) == pu);
        assert(rank(v) == pv);
    }
}

/// A graph without condition tasks in which the cycle search finds no task
/// is, once frozen, a plain acyclic snapshot: running it inline runs every
/// task once, after all of its predecessors (see `inline_run_order`).
pub proof fn lemma_acyclic_snapshot_is_plain(nodes: Seq<Node>, s: GraphSnapshot)
    requires
        nodes_wf(nodes),
        snapshot_of(nodes, s),
        snapshot_wf(s),
        forall|u: int| 0 <= u < nodes.len() ==> !(#[trigger] nodes[u]).kind.spec_is_condition(),
        cycle_result(nodes, Seq::empty()),
    ensures
        plain_dag(s),
{
    let n = nodes.len() as int;
    assert forall|u: int| 0 <= u < s.nodes@.len() implies !(#[trigger] s.nodes@[u]).kind.spec_is_condition() by {
        assert(node_snapshot_of(nodes, u, s.nodes@[u]));
    }
    assert forall|v: usize| v < s.nodes@.len() implies #[trigger] s.initial_pending@[v as int] == preds_of(s, v).len() by {
        assert(node_snapshot_of(nodes, v as int, s.nodes@[v as int]));
        assert(node_ok(nodes[v as int], n));
        lemma_strong_count_all(nodes, nodes[v as int].predecessors@, nodes[v as int].predecessors@.len() as int);
        lemma_preds_match(nodes, s, v);
    }
    lemma_roots_of_props(nodes, n);
    let r = roots_of(nodes, n);
    assert forall|a: int, b: int| 0 <= a < b < s.roots@.len() implies s.roots@[a] != s.roots@[b] by {
        assert(s.roots@[a] == r[a].0);
        assert(s.roots@[b] == r[b].0);
    }
    assert forall|v: usize| v < s.nodes@.len() implies (s.roots@.contains(v) <==> #[trigger] preds_of(s, v).len() == 0) by {
        lemma_positions_contains(r, v);
        lemma_preds_match(nodes, s, v);
        assert(has_id(r, TaskId(v as int as usize)) <==> nodes[v as int].predecessors@.len() == 0);
    }
    let order = choose|order: Seq<int>|
        is_strong_order(nodes, order) && forall|v: int|
            0 <= v < nodes.len() ==> (#[trigger] seq_has(order, v) <==> !has_id(Seq::<TaskId>::empty(), TaskId(v as usize)));
    assert forall|v: int| 0 <= v < nodes.len() implies #[trigger] seq_has(order, v) by {
        assert(!has_id(Seq::<TaskId>::empty(), TaskId(v as usize)));
    }
    lemma_order_ranks(nodes, s, order);
    let rank = |u: int| position_in(order, u);
    assert(ranked(s, rank));
}

} // verus!
