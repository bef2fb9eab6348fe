use vstd::prelude::*;
use crate::text::{opt_view, str_to_string};

verus! {

/// The identity of a task inside one flow: its position in the flow's task list.
#[derive(Clone, Copy, Debug, PartialEq, Eq, Hash, Structural)]
pub struct TaskId(pub usize);

impl TaskId {
    pub fn index(self) -> (r: usize)
        ensures
            r == self.0,
    {
        self.0
    }
}

/// What kind of work a task performs.
#[derive(Clone, Copy, Debug, PartialEq, Eq, Structural)]
pub enum FlowTaskKind {
    Placeholder,
    Static,
    Runtime,
    Condition,
    MultiCondition,
    Subflow,
    Composed,
}

impl FlowTaskKind {
    pub open spec fn spec_has_work(self) -> bool {
        !(self is Placeholder)
    }

    pub open spec fn spec_is_condition(self) -> bool {
        self is Condition || self is MultiCondition
    }

    /// Every kind but a placeholder runs work of its own.
    pub fn has_work(self) -> (r: bool)
        ensures
            r == self.spec_has_work(),
    {
        match self {
            FlowTaskKind::Placeholder => false,
            _ => true,
        }
    }

    /// Condition tasks choose which successors run; their edges are weak.
    pub fn is_condition(self) -> (r: bool)
        ensures
            r == self.spec_is_condition(),
    {
        match self {
            FlowTaskKind::Condition | FlowTaskKind::MultiCondition => true,
            _ => false,
        }
    }
}

/// One task of a flow graph.
pub struct Node {
    pub name: Option<String>,
    pub kind: FlowTaskKind,
    pub successors: Vec<TaskId>,
    pub predecessors: Vec<TaskId>,
    /// Semaphores (by the caller's numbering) the task acquires before it runs.
    pub to_acquire: Vec<usize>,
    /// Semaphores (by the caller's numbering) the task releases after it ran.
    pub to_release: Vec<usize>,
}

pub open spec fn ids_view(v: Seq<TaskId>) -> Seq<int> {
    v.map_values(|t: TaskId| t.0 as int)
}

pub open spec fn ids_below(v: Seq<TaskId>, n: int) -> bool {
    forall|i: int| 0 <= i < v.len() ==> 0 <= #[trigger] v[i].0 < n
}

pub open spec fn ids_distinct(v: Seq<TaskId>) -> bool {
    forall|i: int, j: int| 0 <= i < j < v.len() ==> #[trigger] v[i] != #[trigger] v[j]
}

/// Whether `id` occurs in the list.
pub open spec fn has_id(v: Seq<TaskId>, id: TaskId) -> bool {
    exists|i: int| 0 <= i < v.len() && v[i] == id
}

/// The edge relation of a list of nodes.
pub open spec fn has_edge(nodes: Seq<Node>, from: int, to: int) -> bool {
    0 <= from < nodes.len() && has_id(nodes[from].successors@, TaskId(to as usize))
}

/// The dependency lists of one node only name tasks below `n`, each at most once.
pub open spec fn node_ok(node: Node, n: int) -> bool {
    &&& ids_below(node.successors@, n)
    &&& ids_below(node.predecessors@, n)
    &&& ids_distinct(node.successors@)
    &&& ids_distinct(node.predecessors@)
}

/// A well-formed graph: every id is in range, no list holds an id twice, and the
/// predecessor lists are exactly the reverse of the successor lists.
pub open spec fn nodes_wf(nodes: Seq<Node>) -> bool {
    &&& nodes.len() <= usize::MAX
    &&& forall|i: int| 0 <= i < nodes.len() ==> node_ok(#[trigger] nodes[i], nodes.len() as int)
    &&& forall|i: int, j: int|
        0 <= i < nodes.len() && 0 <= j < nodes.len() ==> (has_id(
            #[trigger] nodes[i].successors@,
            TaskId(j as usize),
        ) <==> has_id(#[trigger] nodes[j].predecessors@, TaskId(i as usize)))
}

/// The task graph of a flow, without the work each task runs: names, kinds,
/// dependencies and semaphore use.
pub struct FlowGraph {
    name: String,
    nodes: Vec<Node>,
    key: u64,
}

impl FlowGraph {
    pub closed spec fn spec_name(&self) -> Seq<char> {
        self.name@
    }

    pub closed spec fn spec_nodes(&self) -> Seq<Node> {
        self.nodes@
    }

    /// The number by which the graph's owner tells it from its other graphs;
    /// tasks carry it to show which graph they belong to.
    pub closed spec fn spec_key(&self) -> u64 {
        self.key
    }

    pub open spec fn wf(&self) -> bool {
        nodes_wf(self.spec_nodes())
    }

    pub open spec fn spec_len(&self) -> nat {
        self.spec_nodes().len()
    }

    pub fn new() -> (g: Self)
        ensures
            g.wf(),
            g.spec_len() == 0,
            g.spec_name() == Seq::<char>::empty(),
            g.spec_key() == 0,
    {
        FlowGraph { name: String::new(), nodes: Vec::new(), key: 0 }
    }

    pub fn with_name(name: &str) -> (g: Self)
        ensures
            g.wf(),
            g.spec_len() == 0,
            g.spec_name() == name@,
            g.spec_key() == 0,
    {
        FlowGraph { name: str_to_string(name), nodes: Vec::new(), key: 0 }
    }

    pub fn name(&self) -> (r: &str)
        ensures
            r@ == self.spec_name(),
    {
        self.name.as_str()
    }

    pub fn set_name(&mut self, name: &str)
        ensures
            final(self).spec_name() == name@,
            final(self).spec_nodes() == old(self).spec_nodes(),
            final(self).spec_key() == old(self).spec_key(),
    {
        self.name = str_to_string(name);
    }

    pub fn key(&self) -> (r: u64)
        ensures
            r == self.spec_key(),
    {
        self.key
    }

    /// Gives the graph the number that identifies it among its owner's graphs.
    pub fn set_key(&mut self, key: u64)
        ensures
            final(self).spec_key() == key,
            final(self).spec_name() == old(self).spec_name(),
            final(self).spec_nodes() == old(self).spec_nodes(),
    {
        self.key = key;
    }

    pub fn num_tasks(&self) -> (r: usize)
        ensures
            r == self.spec_len(),
    {
        self.nodes.len()
    }

    pub fn is_empty(&self) -> (r: bool)
        ensures
            r == (self.spec_len() == 0),
    {
        self.nodes.len() == 0
    }

    pub fn nodes(&self) -> (r: &Vec<Node>)
        ensures
            r@ == self.spec_nodes(),
    {
        &self.nodes
    }

    /// Adds a task of the given kind without dependencies; its id is the
    /// number of tasks the graph held before.
    pub fn emplace(&mut self, kind: FlowTaskKind) -> (id: TaskId)
        requires
            old(self).wf(),
            old(self).spec_len() < usize::MAX,
        ensures
            final(self).wf(),
            id.0 == old(self).spec_len(),
            final(self).spec_name() == old(self).spec_name(),
            final(self).spec_key() == old(self).spec_key(),
            final(self).spec_len() == old(self).spec_len() + 1,
            forall|i: int|
                0 <= i < old(self).spec_len() ==> #[trigger] final(self).spec_nodes()[i]
                    == old(self).spec_nodes()[i],
            final(self).spec_nodes()[id.0 as int].kind == kind,
            final(self).spec_nodes()[id.0 as int].name is None,
            final(self).spec_nodes()[id.0 as int].successors@.len() == 0,
            final(self).spec_nodes()[id.0 as int].predecessors@.len() == 0,
            final(self).spec_nodes()[id.0 as int].to_acquire@.len() == 0,
            final(self).spec_nodes()[id.0 as int].to_release@.len() == 0,
    {
        let id = TaskId(self.nodes.len());
        self.nodes.push(
            Node {
                name: None,
                kind,
                successors: Vec::new(),
                predecessors: Vec::new(),
                to_acquire: Vec::new(),
                to_release: Vec::new(),
            },
        );
        proof {
            let n = self.nodes@;
            let o = old(self).nodes@;
            assert forall|i: int, j: int|
                0 <= i < n.len() && 0 <= j < n.len() implies (has_id(
                #[trigger] n[i].successors@,
                TaskId(j as usize),
            ) <==> has_id(#[trigger] n[j].predecessors@, TaskId(i as usize))) by {
                if i == id.0 || j == id.0 {
                    if i < o.len() {
                        assert(node_ok(o[i], o.len() as int));
                        if has_id(n[i].successors@, TaskId(j as usize)) {
                            let k = choose|k: int|
                                0 <= k < n[i].successors@.len() && n[i].successors@[k]
                                    == TaskId(j as usize);
                            assert(n[i].successors@[k].0 < o.len());
                        }
                    }
                    if j < o.len() {
                        assert(node_ok(o[j], o.len() as int));
                        if has_id(n[j].predecessors@, TaskId(i as usize)) {
                            let k = choose|k: int|
                                0 <= k < n[j].predecessors@.len() && n[j].predecessors@[k]
                                    == TaskId(i as usize);
                            assert(n[j].predecessors@[k].0 < o.len());
                        }
                    }
                } else {
                    assert(n[i] == o[i]);
                    assert(n[j] == o[j]);
                }
            }
            assert forall|i: int| 0 <= i < n.len() implies node_ok(
                #[trigger] n[i],
                n.len() as int,
            ) by {
                if i < o.len() {
                    assert(n[i] == o[i]);
                    assert(node_ok(o[i], o.len() as int));
                }
            }
        }
        id
    }

    /// Names a task.
    pub fn set_task_name(&mut self, id: TaskId, name: &str)
        requires
            old(self).wf(),
            id.0 < old(self).spec_len(),
        ensures
            final(self).wf(),
            final(self).spec_name() == old(self).spec_name(),
            final(self).spec_key() == old(self).spec_key(),
            final(self).spec_len() == old(self).spec_len(),
            forall|i: int|
                0 <= i < old(self).spec_len() && i != id.0 ==> #[trigger] final(self).spec_nodes()[i] == old(self).spec_nodes()[i],
            opt_view(final(self).spec_nodes()[id.0 as int].name) == Some(name@),
            final(self).spec_nodes()[id.0 as int].kind == old(self).spec_nodes()[id.0 as int].kind,
            final(self).spec_nodes()[id.0 as int].successors == old(self).spec_nodes()[id.0 as int].successors,
            final(self).spec_nodes()[id.0 as int].predecessors == old(self).spec_nodes()[id.0 as int].predecessors,
            final(self).spec_nodes()[id.0 as int].to_acquire == old(self).spec_nodes()[id.0 as int].to_acquire,
            final(self).spec_nodes()[id.0 as int].to_release == old(self).spec_nodes()[id.0 as int].to_release,
    {
        let mut node = self.take_node(id.0);
        node.name = Some(str_to_string(name));
        self.put_node(id.0, node);
        proof {
            lemma_same_structure_wf(old(self).nodes@, self.nodes@);
        }
    }

    /// Records that the task acquires a semaphore before it runs.
    pub fn add_acquire(&mut self, id: TaskId, semaphore: usize)
        requires
            old(self).wf(),
            id.0 < old(self).spec_len(),
        ensures
            final(self).wf(),
            final(self).spec_name() == old(self).spec_name(),
            final(self).spec_key() == old(self).spec_key(),
            final(self).spec_len() == old(self).spec_len(),
            forall|i: int|
                0 <= i < old(self).spec_len() && i != id.0 ==> #[trigger] final(self).spec_nodes()[i] == old(self).spec_nodes()[i],
            final(self).spec_nodes()[id.0 as int].name == old(self).spec_nodes()[id.0 as int].name,
            final(self).spec_nodes()[id.0 as int].kind == old(self).spec_nodes()[id.0 as int].kind,
            final(self).spec_nodes()[id.0 as int].successors == old(self).spec_nodes()[id.0 as int].successors,
            final(self).spec_nodes()[id.0 as int].predecessors == old(self).spec_nodes()[id.0 as int].predecessors,
            final(self).spec_nodes()[id.0 as int].to_acquire@ == old(self).spec_nodes()[id.0 as int].to_acquire@.push(semaphore),
            final(self).spec_nodes()[id.0 as int].to_release == old(self).spec_nodes()[id.0 as int].to_release,
    {
        let mut node = self.take_node(id.0);
        node.to_acquire.push(semaphore);
        self.put_node(id.0, node);
        proof {
            lemma_same_structure_wf(old(self).nodes@, self.nodes@);
        }
    }

    /// Records that the task releases a semaphore after it ran.
    pub fn add_release(&mut self, id: TaskId, semaphore: usize)
        requires
            old(self).wf(),
            id.0 < old(self).spec_len(),
        ensures
            final(self).wf(),
            final(self).spec_name() == old(self).spec_name(),
            final(self).spec_key() == old(self).spec_key(),
            final(self).spec_len() == old(self).spec_len(),
            forall|i: int|
                0 <= i < old(self).spec_len() && i != id.0 ==> #[trigger] final(self).spec_nodes()[i] == old(self).spec_nodes()[i],
            final(self).spec_nodes()[id.0 as int].name == old(self).spec_nodes()[id.0 as int].name,
            final(self).spec_nodes()[id.0 as int].kind == old(self).spec_nodes()[id.0 as int].kind,
            final(self).spec_nodes()[id.0 as int].successors == old(self).spec_nodes()[id.0 as int].successors,
            final(self).spec_nodes()[id.0 as int].predecessors == old(self).spec_nodes()[id.0 as int].predecessors,
            final(self).spec_nodes()[id.0 as int].to_acquire == old(self).spec_nodes()[id.0 as int].to_acquire,
            final(self).spec_nodes()[id.0 as int].to_release@ == old(self).spec_nodes()[id.0 as int].to_release@.push(semaphore),
    {
        let mut node = self.take_node(id.0);
        node.to_release.push(semaphore);
        self.put_node(id.0, node);
        proof {
            lemma_same_structure_wf(old(self).nodes@, self.nodes@);
        }
    }

    fn take_node(&mut self, i: usize) -> (node: Node)
        requires
            i < old(self).nodes@.len(),
        ensures
            node == old(self).nodes@[i as int],
            final(self).nodes@.len() == old(self).nodes@.len(),
            final(self).name == old(self).name,
            final(self).key == old(self).key,
            forall|j: int|
                0 <= j < old(self).nodes@.len() && j != i ==> #[trigger] final(self).nodes@[j]
                    == old(self).nodes@[j],
    {
        let mut tmp = Node {
            name: None,
            kind: FlowTaskKind::Placeholder,
            successors: Vec::new(),
            predecessors: Vec::new(),
            to_acquire: Vec::new(),
            to_release: Vec::new(),
        };
        self.nodes.set_and_swap(i, &mut tmp);
        tmp
    }

    fn put_node(&mut self, i: usize, node: Node)
        requires
            i < old(self).nodes@.len(),
        ensures
            final(self).nodes@ == old(self).nodes@.update(i as int, node),
            final(self).name == old(self).name,
            final(self).key == old(self).key,
    {
        self.nodes.set(i, node);
    }

    /// Adds the edge `from -> to` unless it is there already.
    pub fn add_edge(&mut self, from: TaskId, to: TaskId)
        requires
            old(self).wf(),
            from.0 < old(self).spec_len(),
            to.0 < old(self).spec_len(),
        ensures
            final(self).wf(),
            final(self).spec_name() == old(self).spec_name(),
            final(self).spec_key() == old(self).spec_key(),
            final(self).spec_len() == old(self).spec_len(),
            forall|i: int|
                #![trigger final(self).spec_nodes()[i]]
                0 <= i < old(self).spec_len() ==> {
                    &&& final(self).spec_nodes()[i].name == old(self).spec_nodes()[i].name
                    &&& final(self).spec_nodes()[i].kind == old(self).spec_nodes()[i].kind
                    &&& final(self).spec_nodes()[i].to_acquire == old(self).spec_nodes()[i].to_acquire
                    &&& final(self).spec_nodes()[i].to_release == old(self).spec_nodes()[i].to_release
                },
            forall|i: int, j: int|
                0 <= i < old(self).spec_len() && 0 <= j < old(self).spec_len() ==> (has_edge(
                    final(self).spec_nodes(),
                    i,
                    j,
                ) <==> (has_edge(old(self).spec_nodes(), i, j) || (i == from.0 && j == to.0))),
            // the new edge goes at the end of the lists, and nothing else moves
            forall|i: int|
                #![trigger final(self).spec_nodes()[i]]
                0 <= i < old(self).spec_len() ==> final(self).spec_nodes()[i].successors@ == (if i
                    == from.0 && !has_id(old(self).spec_nodes()[i].successors@, to) {
                    old(self).spec_nodes()[i].successors@.push(to)
                } else {
                    old(self).spec_nodes()[i].successors@
                }),
    {
        let ghost o = self.nodes@;
        let present = contains_id(&self.nodes[from.0].successors, to);
        proof {
            assert(has_id(o[from.0 as int].successors@, to) <==> has_id(
                o[to.0 as int].predecessors@,
                from,
            ));
        }
        if !present {
            let mut node = self.take_node(from.0);
            node.successors.push(to);
            self.put_node(from.0, node);
            let ghost mid = self.nodes@;
            let mut node = self.take_node(to.0);
            node.predecessors.push(from);
            self.put_node(to.0, node);
            proof {
                let n = self.nodes@;
                assert(n.len() == o.len());
                assert forall|i: int| #![trigger n[i]] 0 <= i < n.len() implies {
                    &&& n[i].successors@ == (if i == from.0 {
                        o[i].successors@.push(to)
                    } else {
                        o[i].successors@
                    })
                    &&& n[i].predecessors@ == (if i == to.0 {
                        o[i].predecessors@.push(from)
                    } else {
                        o[i].predecessors@
                    })
                    &&& n[i].name == o[i].name
                    &&& n[i].kind == o[i].kind
                    &&& n[i].to_acquire == o[i].to_acquire
                    &&& n[i].to_release == o[i].to_release
                } by {
                    if i == from.0 && i == to.0 {
                    } else if i == from.0 {
                        assert(n[i] == mid[i]);
                    } else if i == to.0 {
                        assert(mid[i] == o[i]);
                    } else {
                        assert(n[i] == mid[i]);
                        assert(mid[i] == o[i]);
                    }
                }
                lemma_push_edge_wf(o, n, from.0 as int, to.0 as int);
            }
        }
    }
}

/// Whether the list holds the id.
pub fn contains_id(v: &Vec<TaskId>, id: TaskId) -> (r: bool)
    ensures
        r == has_id(v@, id),
{
    let mut i: usize = 0;
    while i < v.len()
        invariant
            i <= v@.len(),
            forall|k: int| 0 <= k < i ==> v@[k] != id,
        decreases v@.len() - i,
    {
        if v[i] == id {
            return true;
        }
        i = i + 1;
    }
    false
}

pub proof fn lemma_push_edge_wf(o: Seq<Node>, n: Seq<Node>, from: int, to: int)
    requires
        nodes_wf(o),
        0 <= from < o.len(),
        0 <= to < o.len(),
        !has_id(o[from].successors@, TaskId(to as usize)),
        !has_id(o[to].predecessors@, TaskId(from as usize)),
        n.len() == o.len(),
        forall|i: int| #![trigger n[i]] 0 <= i < n.len() ==> {
            &&& n[i].successors@ == (if i == from {
                o[i].successors@.push(TaskId(to as usize))
            } else {
                o[i].successors@
            })
            &&& n[i].predecessors@ == (if i == to {
                o[i].predecessors@.push(TaskId(from as usize))
            } else {
                o[i].predecessors@
            })
        },
    ensures
        nodes_wf(n),
        forall|i: int, j: int|
            0 <= i < o.len() && 0 <= j < o.len() ==> (has_edge(n, i, j) <==> (has_edge(o, i, j)
                || (i == from && j == to))),
{
    assert forall|i: int| 0 <= i < n.len() implies node_ok(#[trigger] n[i], n.len() as int) by {
        assert(node_ok(o[i], o.len() as int));
        let os = o[i].successors@;
        let op = o[i].predecessors@;
        if i == from {
            assert forall|a: int, b: int|
                0 <= a < b < n[i].successors@.len() implies #[trigger] n[i].successors@[a]
                != #[trigger] n[i].successors@[b] by {
                if b == os.len() {
                    assert(n[i].successors@[a] == os[a]);
                }
            }
        }
        if i == to {
            assert forall|a: int, b: int|
                0 <= a < b < n[i].predecessors@.len() implies #[trigger] n[i].predecessors@[a]
                != #[trigger] n[i].predecessors@[b] by {
                if b == op.len() {
                    assert(n[i].predecessors@[a] == op[a]);
                }
            }
        }
    }
    assert forall|i: int, j: int|
        0 <= i < n.len() && 0 <= j < n.len() implies (has_id(
        #[trigger] n[i].successors@,
        TaskId(j as usize),
    ) <==> has_id(#[trigger] n[j].predecessors@, TaskId(i as usize))) by {
        lemma_has_id_push(o[i].successors@, TaskId(to as usize), TaskId(j as usize));
        lemma_has_id_push(o[j].predecessors@, TaskId(from as usize), TaskId(i as usize));
        assert(has_id(o[i].successors@, TaskId(j as usize)) <==> has_id(
            o[j].predecessors@,
            TaskId(i as usize),
        ));
    }
    assert forall|i: int, j: int|
        0 <= i < o.len() && 0 <= j < o.len() implies (has_edge(n, i, j) <==> (has_edge(o, i, j)
        || (i == from && j == to))) by {
        lemma_has_id_push(o[i].successors@, TaskId(to as usize), TaskId(j as usize));
    }
}

pub proof fn lemma_has_id_push(v: Seq<TaskId>, x: TaskId, y: TaskId)
    ensures
        has_id(v.push(x), y) <==> (has_id(v, y) || x == y),
{
    if has_id(v, y) {
        let k = choose|k: int| 0 <= k < v.len() && v[k] == y;
        assert(v.push(x)[k] == y);
    }
    if x == y {
        assert(v.push(x)[v.len() as int] == y);
    }
    if has_id(v.push(x), y) {
        let k = choose|k: int| 0 <= k < v.push(x).len() && v.push(x)[k] == y;
        if k < v.len() {
            assert(v[k] == y);
        }
    }
}

/// Two node lists with the same dependency lists.
pub open spec fn same_structure(a: Seq<Node>, b: Seq<Node>) -> bool {
    &&& a.len() == b.len()
    &&& forall|i: int|
        0 <= i < a.len() ==> (#[trigger] a[i]).successors == b[i].successors
            && a[i].predecessors == b[i].predecessors
}

pub proof fn lemma_same_structure_wf(a: Seq<Node>, b: Seq<Node>)
    requires
        nodes_wf(a),
        same_structure(a, b),
    ensures
        nodes_wf(b),
{
    assert forall|i: int| 0 <= i < b.len() implies node_ok(#[trigger] b[i], b.len() as int) by {
        assert(node_ok(a[i], a.len() as int));
        assert(a[i].successors == b[i].successors);
    }
    assert forall|i: int, j: int|
        0 <= i < b.len() && 0 <= j < b.len() implies (has_id(
        #[trigger] b[i].successors@,
        TaskId(j as usize),
    ) <==> has_id(#[trigger] b[j].predecessors@, TaskId(i as usize))) by {
        assert(a[i].successors == b[i].successors);
        assert(a[j].predecessors == b[j].predecessors);
        assert(has_id(a[i].successors@, TaskId(j as usize)) <==> has_id(
            a[j].predecessors@,
            TaskId(i as usize),
        ));
    }
}

} // verus!
