use vstd::prelude::*;
use crate::graph::{Node, TaskId, has_id, nodes_wf, node_ok, ids_below};

verus! {

/// A dependency that a task must wait for: the edge `u -> v` whose source is not
/// a condition task.
pub open spec fn strong_edge(nodes: Seq<Node>, u: int, v: int) -> bool {
    &&& 0 <= u < nodes.len()
    &&& 0 <= v < nodes.len()
    &&& !nodes[u].kind.spec_is_condition()
    &&& has_id(nodes[u].successors@, TaskId(v as usize))
}

/// The number of sources `u < k` of strong edges into `v` that are not in `done`.
pub open spec fn pending_in(nodes: Seq<Node>, v: int, done: Set<int>, k: int) -> nat
    decreases k,
{
    if k <= 0 {
        0
    } else {
        pending_in(nodes, v, done, k - 1) + (if strong_edge(nodes, k - 1, v) && !done.contains(
            k - 1,
        ) {
            1nat
        } else {
            0nat
        })
    }
}

/// Where `x` occurs in `s`, if it does.
pub open spec fn seq_has(s: Seq<int>, x: int) -> bool {
    exists|p: int| 0 <= p < s.len() && s[p] == x
}

/// The nodes of `order` can run in that order: each appears once, and every strong
/// predecessor of a node stands before it.
pub open spec fn is_strong_order(nodes: Seq<Node>, order: Seq<int>) -> bool {
    &&& forall|p: int, q: int| 0 <= p < q < order.len() ==> order[p] != order[q]
    &&& forall|p: int| 0 <= p < order.len() ==> 0 <= #[trigger] order[p] < nodes.len()
    &&& forall|p: int, u: int|
        0 <= p < order.len() && #[trigger] strong_edge(nodes, u, order[p]) ==> exists|q: int|
            0 <= q < p && #[trigger] order[q] == u
}

/// Some task of `r` has a strong edge into `v`.
pub open spec fn has_strong_pred_in(nodes: Seq<Node>, r: Seq<TaskId>, v: int) -> bool {
    exists|b: int| 0 <= b < r.len() && #[trigger] strong_edge(nodes, r[b].0 as int, v)
}

/// What the cycle search returns: the ids, ascending, of the tasks that can never
/// become ready through strong dependencies.  Every such task has a strong
/// predecessor among them, and all other tasks can be ordered so that strong
/// predecessors come first.
pub open spec fn cycle_result(nodes: Seq<Node>, r: Seq<TaskId>) -> bool {
    &&& nodes.len() <= usize::MAX
    &&& forall|a: int, b: int| 0 <= a < b < r.len() ==> r[a].0 < r[b].0
    &&& ids_below(r, nodes.len() as int)
    &&& forall|a: int| 0 <= a < r.len() ==> #[trigger] has_strong_pred_in(nodes, r, r[a].0 as int)
    &&& exists|order: Seq<int>|
        is_strong_order(nodes, order) && forall|v: int|
            0 <= v < nodes.len() ==> (#[trigger] seq_has(order, v) <==> !has_id(
                r,
                TaskId(v as usize),
            ))
}

pub proof fn lemma_pending_bound(nodes: Seq<Node>, v: int, done: Set<int>, k: int)
    ensures
        pending_in(nodes, v, done, k) <= if k < 0 { 0 } else { k },
    decreases k,
{
    if k > 0 {
        lemma_pending_bound(nodes, v, done, k - 1);
    }
}

pub proof fn lemma_pending_insert(nodes: Seq<Node>, v: int, done: Set<int>, u: int, k: int)
    requires
        !done.contains(u),
    ensures
        pending_in(nodes, v, done.insert(u), k) + (if strong_edge(nodes, u, v) && 0 <= u < k {
            1nat
        } else {
            0nat
        }) == pending_in(nodes, v, done, k),
    decreases k,
{
    if k > 0 {
        lemma_pending_insert(nodes, v, done, u, k - 1);
    }
}

pub proof fn lemma_pending_witness(nodes: Seq<Node>, v: int, done: Set<int>, k: int) -> (u: int)
    requires
        pending_in(nodes, v, done, k) > 0,
    ensures
        0 <= u < k,
        strong_edge(nodes, u, v),
        !done.contains(u),
    decreases k,
{
    if pending_in(nodes, v, done, k - 1) > 0 {
        lemma_pending_witness(nodes, v, done, k - 1)
    } else {
        k - 1
    }
}

pub proof fn lemma_pending_zero_all(nodes: Seq<Node>, v: int, done: Set<int>, k: int, u: int)
    requires
        pending_in(nodes, v, done, k) == 0,
        0 <= u < k,
        strong_edge(nodes, u, v),
    ensures
        done.contains(u),
    decreases k,
{
    if u < k - 1 {
        lemma_pending_zero_all(nodes, v, done, k - 1, u);
    }
}

/// Finds the tasks that a cycle of strong dependencies keeps from ever running
/// (Kahn's algorithm over the edges whose source is not a condition task).
pub fn find_non_conditional_cycle_nodes(nodes: &Vec<Node>) -> (r: Vec<TaskId>)
    requires
        nodes_wf(nodes@),
    ensures
        cycle_result(nodes@, r@),
{
    let n = nodes.len();
    let ghost ns = nodes@;
    let mut indegree: Vec<usize> = Vec::new();
    let mut i: usize = 0;
    while i < n
        invariant
            i <= n,
            n == nodes@.len(),
            indegree@.len() == i,
            forall|k: int| 0 <= k < i ==> #[trigger] indegree@[k] == 0,
        decreases n - i,
    {
        indegree.push(0);
        i = i + 1;
    }
    // count the strong edges into every task
    let mut u: usize = 0;
    while u < n
        invariant
            u <= n,
            n == nodes@.len(),
            ns == nodes@,
            nodes_wf(ns),
            indegree@.len() == n,
            forall|v: int|
                0 <= v < n ==> #[trigger] indegree@[v] == pending_in(ns, v, Set::empty(), u as int),
        decreases n - u,
    {
        let node = &nodes[u];
        proof {
            assert(node_ok(ns[u as int], n as int));
        }
        if !node.kind.is_condition() {
            let mut j: usize = 0;
            while j < node.successors.len()
                invariant
                    j <= node.successors@.len(),
                    u < n,
                    n == nodes@.len(),
                    ns == nodes@,
                    *node == ns[u as int],
                    !node.kind.spec_is_condition(),
                    node_ok(*node, n as int),
                    indegree@.len() == n,
                    forall|v: int|
                        0 <= v < n ==> #[trigger] indegree@[v] == pending_in(
                            ns,
                            v,
                            Set::empty(),
                            u as int,
                        ) + (if has_id(node.successors@.subrange(0, j as int), TaskId(v as usize)) {
                            1nat
                        } else {
                            0nat
                        }),
                decreases node.successors@.len() - j,
            {
                let s = node.successors[j].0;
                proof {
                    lemma_pending_bound(ns, s as int, Set::empty(), u as int);
                }
                let cur = indegree[s];
                indegree.set(s, cur + 1);
                proof {
                    assert forall|v: int| 0 <= v < n implies #[trigger] indegree@[v]
                        == pending_in(ns, v, Set::empty(), u as int) + (if has_id(
                        node.successors@.subrange(0, j + 1),
                        TaskId(v as usize),
                    ) {
                        1nat
                    } else {
                        0nat
                    }) by {
                        let a = node.successors@.subrange(0, j as int);
                        let b = node.successors@.subrange(0, j + 1);
                        assert(b =~= a.push(node.successors@[j as int]));
                        crate::graph::lemma_has_id_push(
                            a,
                            node.successors@[j as int],
                            TaskId(v as usize),
                        );
                        if v == s {
                            if has_id(a, TaskId(v as usize)) {
                                let q = choose|q: int|
                                    0 <= q < a.len() && a[q] == TaskId(v as usize);
                                assert(node.successors@[q] == node.successors@[j as int]);
                            }
                        }
                    }
                }
                j = j + 1;
            }
            proof {
                assert(node.successors@.subrange(0, node.successors@.len() as int)
                    =~= node.successors@);
                assert forall|v: int| 0 <= v < n implies #[trigger] indegree@[v] == pending_in(
                    ns,
                    v,
                    Set::empty(),
                    u + 1,
                ) by {
                    assert(strong_edge(ns, u as int, v) == has_id(
                        node.successors@,
                        TaskId(v as usize),
                    ));
                }
            }
        } else {
            proof {
                assert forall|v: int| 0 <= v < n implies #[trigger] indegree@[v] == pending_in(
                    ns,
                    v,
                    Set::empty(),
                    u + 1,
                ) by {
                    assert(!strong_edge(ns, u as int, v));
                }
            }
        }
        u = u + 1;
    }
    // queue every task without strong predecessors
    let mut queue: Vec<usize> = Vec::new();
    let mut v: usize = 0;
    while v < n
        invariant
            v <= n,
            n == nodes@.len(),
            indegree@.len() == n,
            forall|p: int| 0 <= p < queue@.len() ==> #[trigger] queue@[p] < v,
            forall|p: int, q: int| 0 <= p < q < queue@.len() ==> queue@[p] < queue@[q],
            forall|w: int|
                0 <= w < v ==> (#[trigger] indegree@[w] == 0 <==> seq_has(
                    queue@.map_values(|x: usize| x as int),
                    w,
                )),
        decreases n - v,
    {
        let ghost before = queue@;
        if indegree[v] == 0 {
            queue.push(v);
        }
        proof {
            let qm = queue@.map_values(|x: usize| x as int);
            let bm = before.map_values(|x: usize| x as int);
            assert forall|w: int| 0 <= w < v + 1 implies (#[trigger] indegree@[w] == 0
                <==> seq_has(qm, w)) by {
                if w < v {
                    if seq_has(bm, w) {
                        let p = choose|p: int| 0 <= p < bm.len() && bm[p] == w;
                        assert(qm[p] == w);
                    }
                    if seq_has(qm, w) {
                        let p = choose|p: int| 0 <= p < qm.len() && qm[p] == w;
                        if p < bm.len() {
                            assert(bm[p] == w);
                        }
                    }
                } else {
                    if indegree@[w] == 0 {
                        assert(qm[qm.len() - 1] == w);
                    }
                    if seq_has(qm, w) {
                        let p = choose|p: int| 0 <= p < qm.len() && qm[p] == w;
                        if p < bm.len() {
                            assert(before[p] < v);
                        }
                    }
                }
            }
        }
        v = v + 1;
    }
    let mut head: usize = 0;
    let ghost mut done: Set<int> = Set::empty();
    proof {
        assert forall|p: int, w: int|
            0 <= p < queue@.len() && #[trigger] strong_edge(ns, w, queue@[p] as int) implies
            exists|q: int| 0 <= q < p && q < head && #[trigger] queue@[q] == w by {
            let x = queue@[p] as int;
            let qm = queue@.map_values(|y: usize| y as int);
            assert(qm[p] == x);
            assert(indegree@[x] == 0);
            lemma_pending_zero_all(ns, x, Set::empty(), n as int, w);
        }
        lemma_distinct_bounded_len(queue@, n as int);
    }
    while head < queue.len()
        invariant
            n == nodes@.len(),
            ns == nodes@,
            nodes_wf(ns),
            indegree@.len() == n,
            head <= queue@.len(),
            queue@.len() <= n,
            forall|p: int| 0 <= p < queue@.len() ==> #[trigger] queue@[p] < n,
            forall|p: int, q: int| 0 <= p < q < queue@.len() ==> queue@[p] != queue@[q],
            forall|x: int| #[trigger] done.contains(x) <==> exists|q: int| 0 <= q < head && queue@[q] == x,
            forall|w: int| 0 <= w < n ==> #[trigger] indegree@[w] == pending_in(ns, w, done, n as int),
            forall|w: int|
                0 <= w < n ==> (#[trigger] indegree@[w] == 0 <==> seq_has(
                    queue@.map_values(|x: usize| x as int),
                    w,
                )),
            forall|p: int, w: int|
                0 <= p < queue@.len() && #[trigger] strong_edge(ns, w, queue@[p] as int) ==> exists|q: int|
                    0 <= q < p && q < head && #[trigger] queue@[q] == w,
        decreases n - head,
    {
        let u = queue[head];
        let ghost du = done;
        proof {
            assert(!done.contains(u as int)) by {
                if done.contains(u as int) {
                    let q = choose|q: int| 0 <= q < head && queue@[q] == u as int;
                    assert(queue@[q] != queue@[head as int]);
                }
            }
            done = done.insert(u as int);
        }
        let node = &nodes[u];
        proof {
            assert(node_ok(ns[u as int], n as int));
        }
        if !node.kind.is_condition() {
            let mut j: usize = 0;
            while j < node.successors.len()
                invariant
                    j <= node.successors@.len(),
                    u < n,
                    n == nodes@.len(),
                    ns == nodes@,
                    nodes_wf(ns),
                    *node == ns[u as int],
                    !node.kind.spec_is_condition(),
                    node_ok(*node, n as int),
                    indegree@.len() == n,
                    head < queue@.len(),
                    queue@[head as int] == u,
                    !du.contains(u as int),
                    done == du.insert(u as int),
                    forall|p: int| 0 <= p < queue@.len() ==> #[trigger] queue@[p] < n,
                    forall|p: int, q: int| 0 <= p < q < queue@.len() ==> queue@[p] != queue@[q],
                    forall|x: int| #[trigger] done.contains(x) <==> exists|q: int| 0 <= q < head + 1 && queue@[q] == x,
                    forall|w: int|
                        0 <= w < n ==> #[trigger] indegree@[w] + (if has_id(
                            node.successors@.subrange(0, j as int),
                            TaskId(w as usize),
                        ) {
                            1nat
                        } else {
                            0nat
                        }) == pending_in(ns, w, du, n as int),
                    forall|w: int|
                        0 <= w < n ==> (#[trigger] indegree@[w] == 0 <==> seq_has(
                            queue@.map_values(|x: usize| x as int),
                            w,
                        )),
                    forall|p: int, w: int|
                        0 <= p < queue@.len() && #[trigger] strong_edge(ns, w, queue@[p] as int) ==> exists|q: int|
                            0 <= q < p && q < head + 1 && #[trigger] queue@[q] == w,
                decreases node.successors@.len() - j,
            {
                let s = node.successors[j].0;
                let ghost before = queue@;
                let ghost a = node.successors@.subrange(0, j as int);
                proof {
                    assert(strong_edge(ns, u as int, s as int)) by {
                        assert(node.successors@[j as int] == TaskId(s));
                    }
                    lemma_pending_insert(ns, s as int, du, u as int, n as int);
                    assert(!has_id(a, TaskId(s))) by {
                        if has_id(a, TaskId(s)) {
                            let q = choose|q: int| 0 <= q < a.len() && a[q] == TaskId(s);
                            assert(node.successors@[q] == node.successors@[j as int]);
                        }
                    }
                }
                let entry = indegree[s];
                indegree.set(s, entry - 1);
                if entry == 1 {
                    proof {
                        assert(!seq_has(before.map_values(|x: usize| x as int), s as int));
                    }
                    queue.push(s);
                }
                proof {
                    let b = node.successors@.subrange(0, j + 1);
                    assert(b =~= a.push(node.successors@[j as int]));
                    let qm = queue@.map_values(|x: usize| x as int);
                    let bm = before.map_values(|x: usize| x as int);
                    assert forall|w: int| 0 <= w < n implies #[trigger] indegree@[w] + (if has_id(
                        b,
                        TaskId(w as usize),
                    ) {
                        1nat
                    } else {
                        0nat
                    }) == pending_in(ns, w, du, n as int) by {
                        crate::graph::lemma_has_id_push(a, node.successors@[j as int], TaskId(w as usize));
                    }
                    assert forall|w: int| 0 <= w < n implies (#[trigger] indegree@[w] == 0
                        <==> seq_has(qm, w)) by {
                        if seq_has(bm, w) {
                            let p = choose|p: int| 0 <= p < bm.len() && bm[p] == w;
                            assert(qm[p] == w);
                        }
                        if seq_has(qm, w) {
                            let p = choose|p: int| 0 <= p < qm.len() && qm[p] == w;
                            if p < bm.len() {
                                assert(bm[p] == w);
                            } else {
                                assert(w == s);
                            }
                        }
                        if w == s && entry == 1 {
                            assert(qm[qm.len() - 1] == w);
                        }
                    }
                    assert forall|p: int, q: int| 0 <= p < q < queue@.len() implies queue@[p]
                        != queue@[q] by {
                        if q == before.len() {
                            assert(bm[p] == before[p] as int);
                        }
                    }
                    assert forall|x: int| #[trigger] done.contains(x) <==> exists|q: int|
                        0 <= q < head + 1 && queue@[q] == x by {
                        if done.contains(x) {
                            let q = choose|q: int| 0 <= q < head + 1 && before[q] == x;
                            assert(queue@[q] == x);
                        }
                        if exists|q: int| 0 <= q < head + 1 && queue@[q] == x {
                            let q = choose|q: int| 0 <= q < head + 1 && queue@[q] == x;
                            assert(before[q] == x);
                        }
                    }
                    assert forall|p: int, w: int|
                        0 <= p < queue@.len() && #[trigger] strong_edge(ns, w, queue@[p] as int) implies exists|q: int|
                        0 <= q < p && q < head + 1 && #[trigger] queue@[q] == w by {
                        if p < before.len() {
                            assert(queue@[p] == before[p]);
                            let q = choose|q: int| 0 <= q < p && q < head + 1 && before[q] == w;
                            assert(queue@[q] == w);
                        } else {
                            assert(queue@[p] == s);
                            assert(indegree@[s as int] == 0);
                            assert(pending_in(ns, s as int, done, n as int) == 0);
                            lemma_pending_zero_all(ns, s as int, done, n as int, w);
                            let q = choose|q: int| 0 <= q < head + 1 && queue@[q] == w;
                            assert(q < p);
                        }
                    }
                }
                j = j + 1;
            }
            proof {
                assert(node.successors@.subrange(0, node.successors@.len() as int)
                    =~= node.successors@);
                assert forall|w: int| 0 <= w < n implies #[trigger] indegree@[w] == pending_in(
                    ns,
                    w,
                    done,
                    n as int,
                ) by {
                    lemma_pending_insert(ns, w, du, u as int, n as int);
                    assert(strong_edge(ns, u as int, w) == has_id(
                        node.successors@,
                        TaskId(w as usize),
                    ));
                }
            }
        } else {
            proof {
                assert forall|w: int| 0 <= w < n implies #[trigger] indegree@[w] == pending_in(
                    ns,
                    w,
                    done,
                    n as int,
                ) by {
                    lemma_pending_insert(ns, w, du, u as int, n as int);
                    assert(!strong_edge(ns, u as int, w));
                }
            }
        }
        proof {
            lemma_distinct_bounded_len(queue@, n as int);
        }
        head = head + 1;
    }
    let mut r: Vec<TaskId> = Vec::new();
    let mut w: usize = 0;
    while w < n
        invariant
            w <= n,
            n == nodes@.len(),
            indegree@.len() == n,
            forall|a: int, b: int| 0 <= a < b < r@.len() ==> r@[a].0 < r@[b].0,
            forall|a: int| 0 <= a < r@.len() ==> #[trigger] r@[a].0 < w,
            forall|x: int|
                0 <= x < w ==> (#[trigger] has_id(r@, TaskId(x as usize)) <==> indegree@[x] > 0),
        decreases n - w,
    {
        let ghost before = r@;
        if indegree[w] > 0 {
            r.push(TaskId(w));
        }
        proof {
            assert forall|x: int| 0 <= x < w + 1 implies (#[trigger] has_id(
                r@,
                TaskId(x as usize),
            ) <==> indegree@[x] > 0) by {
                if before.len() < r@.len() {
                    assert(r@ =~= before.push(TaskId(w)));
                    crate::graph::lemma_has_id_push(before, TaskId(w), TaskId(x as usize));
                }
                if x == w && has_id(before, TaskId(w)) {
                    let k = choose|k: int| 0 <= k < before.len() && before[k] == TaskId(w);
                    assert(before[k].0 < w);
                }
            }
        }
        w = w + 1;
    }
    proof {
        let qm = queue@.map_values(|x: usize| x as int);
        assert(ids_below(r@, n as int));
        assert forall|a: int| 0 <= a < r@.len() implies #[trigger] has_strong_pred_in(
            ns,
            r@,
            r@[a].0 as int,
        ) by {
            let x = r@[a].0 as int;
            assert(has_id(r@, TaskId(x as usize)));
            let uu = lemma_pending_witness(ns, x, done, n as int);
            assert(!seq_has(qm, uu)) by {
                if seq_has(qm, uu) {
                    let p = choose|p: int| 0 <= p < qm.len() && qm[p] == uu;
                    assert(queue@[p] == uu);
                }
            }
            assert(has_id(r@, TaskId(uu as usize)));
            let b = choose|b: int| 0 <= b < r@.len() && r@[b] == TaskId(uu as usize);
            assert(strong_edge(ns, r@[b].0 as int, x));
        }
        assert(is_strong_order(ns, qm)) by {
            assert forall|p: int, ww: int|
                0 <= p < qm.len() && #[trigger] strong_edge(ns, ww, qm[p]) implies exists|q: int|
                0 <= q < p && #[trigger] qm[q] == ww by {
                assert(qm[p] == queue@[p] as int);
                assert(strong_edge(ns, ww, queue@[p] as int));
                let q = choose|q: int| 0 <= q < p && q < head && #[trigger] queue@[q] == ww;
                assert(qm[q] == ww);
            }
        }
        assert forall|x: int| 0 <= x < ns.len() implies (#[trigger] seq_has(qm, x) <==> !has_id(
            r@,
            TaskId(x as usize),
        )) by {
            assert(indegree@[x] == 0 <==> seq_has(qm, x));
        }
    }
    r
}

/// A list of distinct values in `[0, n)` has at most `n` entries.
pub proof fn lemma_distinct_bounded_len(s: Seq<usize>, n: int)
    requires
        forall|p: int| 0 <= p < s.len() ==> #[trigger] s[p] < n,
        forall|p: int, q: int| 0 <= p < q < s.len() ==> s[p] != s[q],
        n >= 0,
    ensures
        s.len() <= n,
    decreases s.len(),
{
    if s.len() > 0 {
        assert(s[0] < n);
        let last = s.last();
        // drop the last value and renumber the one that took the top slot
        let t = s.drop_last();
        let m = n - 1;
        let t2 = t.map_values(|x: usize| if x == m { last } else { x });
        assert forall|p: int| 0 <= p < t2.len() implies #[trigger] t2[p] < m by {
            assert(t[p] != last) by {
                assert(s[p] != s[s.len() - 1]);
            }
            if t[p] == m {
                assert(last < n);
                assert(last != m) by {
                    assert(s[p] != s[s.len() - 1]);
                }
            }
        }
        assert forall|p: int, q: int| 0 <= p < q < t2.len() implies t2[p] != t2[q] by {
            assert(s[p] != s[q]);
            assert(s[p] != s[s.len() - 1]);
            assert(s[q] != s[s.len() - 1]);
        }
        lemma_distinct_bounded_len(t2, m);
    }
}

} // verus!

verus! {

/// `cycle` lists tasks each of which has a strong edge into the next, the last
/// into the first.
pub open spec fn is_strong_cycle(nodes: Seq<Node>, cycle: Seq<int>) -> bool {
    &&& cycle.len() > 0
    &&& forall|i: int|
        0 <= i < cycle.len() ==> #[trigger] strong_edge(
            nodes,
            cycle[i],
            cycle[(i + 1) % (cycle.len() as int)],
        )
}

proof fn lemma_order_avoids_cycle(nodes: Seq<Node>, order: Seq<int>, cycle: Seq<int>, p: int)
    requires
        is_strong_order(nodes, order),
        is_strong_cycle(nodes, cycle),
        0 <= p < order.len(),
    ensures
        !seq_has(cycle, order[p]),
    decreases p,
{
    if seq_has(cycle, order[p]) {
        let i = choose|i: int| 0 <= i < cycle.len() && cycle[i] == order[p];
        let len = cycle.len() as int;
        let j = if i == 0 { len - 1 } else { i - 1 };
        assert((j + 1) % len == i) by {
            if i == 0 {
                assert((len - 1 + 1) % len == 0) by {
                    assert(len % len == 0) by (nonlinear_arith) requires len > 0;
                }
            } else {
                assert((i - 1 + 1) % len == i) by (nonlinear_arith) requires 0 < i < len;
            }
        }
        assert(strong_edge(nodes, cycle[j], cycle[(j + 1) % len]));
        let q = choose|q: int| 0 <= q < p && #[trigger] order[q] == cycle[j];
        lemma_order_avoids_cycle(nodes, order, cycle, q);
        assert(seq_has(cycle, order[q]));
    }
}

/// Law: every task on a cycle of strong dependencies is reported by the cycle
/// search (so validation flags the flow).
pub proof fn lemma_strong_cycle_reported(nodes: Seq<Node>, r: Seq<TaskId>, cycle: Seq<int>)
    requires
        cycle_result(nodes, r),
        is_strong_cycle(nodes, cycle),
    ensures
        forall|i: int| 0 <= i < cycle.len() ==> has_id(r, TaskId(#[trigger] cycle[i] as usize)),
{
    let order = choose|order: Seq<int>|
        is_strong_order(nodes, order) && forall|v: int|
            0 <= v < nodes.len() ==> (#[trigger] seq_has(order, v) <==> !has_id(
                r,
                TaskId(v as usize),
            ));
    assert forall|i: int| 0 <= i < cycle.len() implies has_id(
        r,
        TaskId(#[trigger] cycle[i] as usize),
    ) by {
        let len = cycle.len() as int;
        assert(strong_edge(nodes, cycle[i], cycle[(i + 1) % len]));
        let v = cycle[i];
        if seq_has(order, v) {
            let p = choose|p: int| 0 <= p < order.len() && order[p] == v;
            lemma_order_avoids_cycle(nodes, order, cycle, p);
        }
    }
}

proof fn lemma_order_outside(nodes: Seq<Node>, order: Seq<int>, r: Seq<TaskId>, p: int)
    requires
        is_strong_order(nodes, order),
        ids_below(r, nodes.len() as int),
        nodes.len() <= usize::MAX,
        forall|a: int| 0 <= a < r.len() ==> #[trigger] has_strong_pred_in(nodes, r, r[a].0 as int),
        0 <= p < order.len(),
    ensures
        !has_id(r, TaskId(order[p] as usize)),
    decreases p,
{
    if has_id(r, TaskId(order[p] as usize)) {
        let a = choose|a: int| 0 <= a < r.len() && r[a] == TaskId(order[p] as usize);
        assert(0 <= order[p] < nodes.len());
        assert(has_strong_pred_in(nodes, r, r[a].0 as int));
        let b = choose|b: int| 0 <= b < r.len() && #[trigger] strong_edge(nodes, r[b].0 as int, r[a].0 as int);
        assert(r[a].0 as int == order[p]);
        let q = choose|q: int| 0 <= q < p && #[trigger] order[q] == r[b].0 as int;
        lemma_order_outside(nodes, order, r, q);
        assert(r[b] == TaskId(order[q] as usize));
    }
}

/// Law: the cycle report is determined by the graph alone; two lists that both
/// satisfy its description are equal.
pub proof fn lemma_cycle_result_unique(nodes: Seq<Node>, r1: Seq<TaskId>, r2: Seq<TaskId>)
    requires
        cycle_result(nodes, r1),
        cycle_result(nodes, r2),
    ensures
        r1 == r2,
{
    lemma_cycle_members(nodes, r1, r2);
    lemma_cycle_members(nodes, r2, r1);
    lemma_sorted_ids_equal(r1, r2);
}

proof fn lemma_cycle_members(nodes: Seq<Node>, r1: Seq<TaskId>, r2: Seq<TaskId>)
    requires
        cycle_result(nodes, r1),
        cycle_result(nodes, r2),
    ensures
        forall|x: TaskId| has_id(r2, x) ==> has_id(r1, x),
{
    let order = choose|order: Seq<int>|
        is_strong_order(nodes, order) && forall|v: int|
            0 <= v < nodes.len() ==> (#[trigger] seq_has(order, v) <==> !has_id(
                r1,
                TaskId(v as usize),
            ));
    assert forall|x: TaskId| has_id(r2, x) implies has_id(r1, x) by {
        let a = choose|a: int| 0 <= a < r2.len() && r2[a] == x;
        assert(0 <= r2[a].0 < nodes.len());
        let v = x.0 as int;
        if seq_has(order, v) {
            let p = choose|p: int| 0 <= p < order.len() && order[p] == v;
            lemma_order_outside(nodes, order, r2, p);
        }
    }
}

proof fn lemma_sorted_ids_equal(a: Seq<TaskId>, b: Seq<TaskId>)
    requires
        forall|i: int, j: int| 0 <= i < j < a.len() ==> a[i].0 < a[j].0,
        forall|i: int, j: int| 0 <= i < j < b.len() ==> b[i].0 < b[j].0,
        forall|x: TaskId| has_id(a, x) ==> has_id(b, x),
        forall|x: TaskId| has_id(b, x) ==> has_id(a, x),
    ensures
        a == b,
    decreases a.len() + b.len(),
{
    if a.len() > 0 && b.len() > 0 {
        let la = a.last();
        let lb = b.last();
        assert(has_id(a, la));
        assert(has_id(b, lb));
        let ia = choose|i: int| 0 <= i < a.len() && a[i] == lb;
        let ib = choose|i: int| 0 <= i < b.len() && b[i] == la;
        assert(la.0 <= lb.0) by {
            if ib < b.len() - 1 {
                assert(b[ib].0 < b[b.len() - 1].0);
            }
        }
        assert(lb.0 <= la.0) by {
            if ia < a.len() - 1 {
                assert(a[ia].0 < a[a.len() - 1].0);
            }
        }
        assert(la == lb);
        let a2 = a.drop_last();
        let b2 = b.drop_last();
        assert forall|x: TaskId| has_id(a2, x) implies has_id(b2, x) by {
            let i = choose|i: int| 0 <= i < a2.len() && a2[i] == x;
            assert(has_id(a, x)) by { assert(a[i] == x); }
            let j = choose|j: int| 0 <= j < b.len() && b[j] == x;
            assert(a[i].0 < la.0);
            if j == b.len() - 1 {
                assert(false);
            }
            assert(b2[j] == x);
        }
        assert forall|x: TaskId| has_id(b2, x) implies has_id(a2, x) by {
            let i = choose|i: int| 0 <= i < b2.len() && b2[i] == x;
            assert(has_id(b, x)) by { assert(b[i] == x); }
            let j = choose|j: int| 0 <= j < a.len() && a[j] == x;
            assert(b[i].0 < lb.0);
            if j == a.len() - 1 {
                assert(false);
            }
            assert(a2[j] == x);
        }
        lemma_sorted_ids_equal(a2, b2);
        assert(a =~= a2.push(la));
        assert(b =~= b2.push(lb));
    } else if a.len() > 0 {
        assert(has_id(a, a[0]));
    } else if b.len() > 0 {
        assert(has_id(b, b[0]));
    } else {
        assert(a =~= b);
    }
}

} // verus!
