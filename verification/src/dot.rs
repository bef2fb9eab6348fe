use vstd::prelude::*;
use crate::graph::{FlowGraph, Node, TaskId};
use crate::text::{has_infix, lemma_infix_grows, push_char, push_decimal, push_str, spec_decimal, str_chars};

verus! {

/// How one character of a DOT string literal is written.
pub open spec fn spec_escape_dot_char(c: char) -> Seq<char> {
    if c == '\\' {
        seq!['\\', '\\']
    } else if c == '"' {
        seq!['\\', '"']
    } else {
        seq![c]
    }
}

/// A DOT string literal body: backslashes and double quotes are escaped.
pub open spec fn spec_escape_dot(s: Seq<char>) -> Seq<char>
    decreases s.len(),
{
    if s.len() == 0 {
        Seq::empty()
    } else {
        spec_escape_dot(s.drop_last()) + spec_escape_dot_char(s.last())
    }
}

/// Escapes backslashes and double quotes for a DOT label.
pub fn escape_dot(input: &str) -> (r: String)
    ensures
        r@ == spec_escape_dot(input@),
{
    let chars = str_chars(input);
    let mut out = String::new();
    let mut i: usize = 0;
    while i < chars.len()
        invariant
            i <= chars@.len(),
            chars@ == input@,
            out@ == spec_escape_dot(chars@.subrange(0, i as int)),
        decreases chars@.len() - i,
    {
        let c = chars[i];
        push_escaped_dot_char(&mut out, c);
        proof {
            let t = chars@.subrange(0, i + 1);
            assert(t.drop_last() =~= chars@.subrange(0, i as int));
            assert(t.last() == c);
        }
        i = i + 1;
    }
    proof {
        assert(chars@.subrange(0, chars@.len() as int) =~= chars@);
    }
    out
}

fn push_escaped_dot_char(out: &mut String, c: char)
    ensures
        final(out)@ == old(out)@ + spec_escape_dot_char(c),
{
    if c == '\\' {
        push_char(out, '\\');
        push_char(out, '\\');
        assert(final(out)@ =~= old(out)@ + spec_escape_dot_char(c));
    } else if c == '"' {
        push_char(out, '\\');
        push_char(out, '"');
        assert(final(out)@ =~= old(out)@ + spec_escape_dot_char(c));
    } else {
        push_char(out, c);
        assert(final(out)@ =~= old(out)@ + spec_escape_dot_char(c));
    }
}

pub open spec fn opt_label(name: Option<String>) -> Seq<char> {
    match name {
        Some(s) => s@,
        None => Seq::empty(),
    }
}

/// The edge lines of task `index` for its first `k` successors.
pub open spec fn spec_dot_edges(index: int, succ: Seq<TaskId>, k: int) -> Seq<char>
    decreases k,
{
    if k <= 0 {
        Seq::empty()
    } else {
        spec_dot_edges(index, succ, k - 1) + "  "@ + spec_decimal(index as nat) + " -> "@
            + spec_decimal(succ[k - 1].0 as nat) + ";\n"@
    }
}

/// The lines of one task: its label line, then one line per edge.
pub open spec fn spec_dot_node(index: int, node: Node) -> Seq<char> {
    "  "@ + spec_decimal(index as nat) + " [label=\""@ + spec_escape_dot(opt_label(node.name))
        + "\"];\n"@ + spec_dot_edges(index, node.successors@, node.successors@.len() as int)
}

pub open spec fn spec_dot_nodes(nodes: Seq<Node>, k: int) -> Seq<char>
    decreases k,
{
    if k <= 0 {
        Seq::empty()
    } else {
        spec_dot_nodes(nodes, k - 1) + spec_dot_node(k - 1, nodes[k - 1])
    }
}

/// The Graphviz text of a flow: a `digraph flow`, its label when the flow has
/// a name, then every task with its label and its edges, in task order.
pub open spec fn spec_dump_dot(name: Seq<char>, nodes: Seq<Node>) -> Seq<char> {
    "digraph flow {\n"@ + (if name.len() == 0 {
        Seq::empty()
    } else {
        "  label=\""@ + spec_escape_dot(name) + "\";\n"@
    }) + spec_dot_nodes(nodes, nodes.len() as int) + "}\n"@
}

/// The DOT line of the edge `from -> to`.
pub open spec fn dot_edge_line(from: nat, to: nat) -> Seq<char> {
    "  "@ + spec_decimal(from) + " -> "@ + spec_decimal(to) + ";\n"@
}

proof fn lemma_edges_contain(index: int, succ: Seq<TaskId>, m: int, k: int)
    requires
        0 <= index,
        0 <= k < m <= succ.len(),
    ensures
        has_infix(spec_dot_edges(index, succ, m), dot_edge_line(index as nat, succ[k].0 as nat)),
    decreases m,
{
    let line = dot_edge_line(index as nat, succ[m - 1].0 as nat);
    let before = spec_dot_edges(index, succ, m - 1);
    assert(spec_dot_edges(index, succ, m) =~= before + line);
    if k == m - 1 {
        lemma_infix_grows(before, line, line);
    } else {
        lemma_edges_contain(index, succ, m - 1, k);
        lemma_infix_grows(before, line, dot_edge_line(index as nat, succ[k].0 as nat));
    }
}

proof fn lemma_nodes_contain(nodes: Seq<Node>, m: int, i: int, k: int)
    requires
        0 <= i < m <= nodes.len(),
        0 <= k < nodes[i].successors@.len(),
    ensures
        has_infix(spec_dot_nodes(nodes, m), dot_edge_line(i as nat, nodes[i].successors@[k].0 as nat)),
    decreases m,
{
    let line = dot_edge_line(i as nat, nodes[i].successors@[k].0 as nat);
    let before = spec_dot_nodes(nodes, m - 1);
    let node = nodes[m - 1];
    assert(spec_dot_nodes(nodes, m) == before + spec_dot_node(m - 1, node));
    if i == m - 1 {
        let head = "  "@ + spec_decimal(i as nat) + " [label=\""@ + spec_escape_dot(opt_label(node.name)) + "\"];\n"@;
        let edges = spec_dot_edges(i, node.successors@, node.successors@.len() as int);
        assert(spec_dot_node(i, node) == head + edges);
        lemma_edges_contain(i, node.successors@, node.successors@.len() as int, k);
        lemma_infix_grows(head, edges, line);
        lemma_infix_grows(before, spec_dot_node(i, node), line);
    } else {
        lemma_nodes_contain(nodes, m - 1, i, k);
        lemma_infix_grows(before, spec_dot_node(m - 1, node), line);
    }
}

/// Law: the DOT text of a flow holds, for every task `i` and every
/// successor `j` of it, the edge line `  i -> j;`.
pub proof fn lemma_dot_has_every_edge(name: Seq<char>, nodes: Seq<Node>, i: int, k: int)
    requires
        0 <= i < nodes.len(),
        0 <= k < nodes[i].successors@.len(),
    ensures
        has_infix(spec_dump_dot(name, nodes), dot_edge_line(i as nat, nodes[i].successors@[k].0 as nat)),
{
    let line = dot_edge_line(i as nat, nodes[i].successors@[k].0 as nat);
    let pre = "digraph flow {\n"@ + (if name.len() == 0 {
        Seq::empty()
    } else {
        "  label=\""@ + spec_escape_dot(name) + "\";\n"@
    });
    let body = spec_dot_nodes(nodes, nodes.len() as int);
    assert(spec_dump_dot(name, nodes) == (pre + body) + "}\n"@);
    lemma_nodes_contain(nodes, nodes.len() as int, i, k);
    lemma_infix_grows(pre, body, line);
    lemma_infix_grows(pre + body, "}\n"@, line);
}

/// The DOT line that declares task `index` with its label.
pub open spec fn dot_node_line(index: nat, label: Seq<char>) -> Seq<char> {
    "  "@ + spec_decimal(index) + " [label=\""@ + spec_escape_dot(label) + "\"];\n"@
}

proof fn lemma_nodes_declare(nodes: Seq<Node>, m: int, i: int)
    requires
        0 <= i < m <= nodes.len(),
    ensures
        has_infix(spec_dot_nodes(nodes, m), dot_node_line(i as nat, opt_label(nodes[i].name))),
    decreases m,
{
    let line = dot_node_line(i as nat, opt_label(nodes[i].name));
    let before = spec_dot_nodes(nodes, m - 1);
    let node = nodes[m - 1];
    assert(spec_dot_nodes(nodes, m) == before + spec_dot_node(m - 1, node));
    if i == m - 1 {
        let edges = spec_dot_edges(i, node.successors@, node.successors@.len() as int);
        assert(spec_dot_node(i, node) =~= line + edges);
        lemma_infix_grows(line, edges, line);
        lemma_infix_grows(before, spec_dot_node(i, node), line);
    } else {
        lemma_nodes_declare(nodes, m - 1, i);
        lemma_infix_grows(before, spec_dot_node(m - 1, node), line);
    }
}

/// Law: the DOT text of a flow is a `digraph flow { ... }` that declares
/// every task `i` on a line `  i [label="<name>"];`, its name escaped.
pub proof fn lemma_dot_declares_every_task(name: Seq<char>, nodes: Seq<Node>, i: int)
    requires
        0 <= i < nodes.len(),
    ensures
        has_infix(spec_dump_dot(name, nodes), dot_node_line(i as nat, opt_label(nodes[i].name))),
        spec_dump_dot(name, nodes).subrange(0, 15) == "digraph flow {\n"@,
{
    reveal_strlit("digraph flow {\n");
    let line = dot_node_line(i as nat, opt_label(nodes[i].name));
    let pre = "digraph flow {\n"@ + (if name.len() == 0 {
        Seq::empty()
    } else {
        "  label=\""@ + spec_escape_dot(name) + "\";\n"@
    });
    let body = spec_dot_nodes(nodes, nodes.len() as int);
    assert(spec_dump_dot(name, nodes) == (pre + body) + "}\n"@);
    lemma_nodes_declare(nodes, nodes.len() as int, i);
    lemma_infix_grows(pre, body, line);
    lemma_infix_grows(pre + body, "}\n"@, line);
    assert(spec_dump_dot(name, nodes).subrange(0, 15) =~= "digraph flow {\n"@);
}

fn push_dot_node(out: &mut String, index: usize, node: &Node)
    ensures
        final(out)@ == old(out)@ + spec_dot_node(index as int, *node),
{
    push_str(out, "  ");
    push_decimal(out, index as u64);
    push_str(out, " [label=\"");
    let label = match &node.name {
        Some(n) => escape_dot(n.as_str()),
        None => escape_dot(""),
    };
    push_str(out, label.as_str());
    push_str(out, "\"];\n");
    proof {
        reveal_strlit("");
        assert(""@ =~= Seq::<char>::empty());
    }
    let ghost head = out@;
    let mut k: usize = 0;
    while k < node.successors.len()
        invariant
            k <= node.successors@.len(),
            out@ == head + spec_dot_edges(index as int, node.successors@, k as int),
        decreases node.successors@.len() - k,
    {
        push_str(out, "  ");
        push_decimal(out, index as u64);
        push_str(out, " -> ");
        push_decimal(out, node.successors[k].0 as u64);
        push_str(out, ";\n");
        proof {
            assert(out@ =~= head + spec_dot_edges(index as int, node.successors@, k + 1));
        }
        k = k + 1;
    }
    proof {
        assert(out@ =~= old(out)@ + spec_dot_node(index as int, *node));
    }
}

impl FlowGraph {
    /// The graph in Graphviz DOT form.
    pub fn dump_dot(&self) -> (r: String)
        ensures
            r@ == spec_dump_dot(self.spec_name(), self.spec_nodes()),
    {
        let mut out = String::new();
        push_str(&mut out, "digraph flow {\n");
        let name = self.name();
        if name.unicode_len() != 0 {
            push_str(&mut out, "  label=\"");
            let escaped = escape_dot(name);
            push_str(&mut out, escaped.as_str());
            push_str(&mut out, "\";\n");
        }
        let ghost head = out@;
        let nodes = self.nodes();
        let mut i: usize = 0;
        while i < nodes.len()
            invariant
                i <= nodes@.len(),
                nodes@ == self.spec_nodes(),
                out@ == head + spec_dot_nodes(nodes@, i as int),
            decreases nodes@.len() - i,
        {
            push_dot_node(&mut out, i, &nodes[i]);
            proof {
                assert(out@ =~= head + spec_dot_nodes(nodes@, i + 1));
            }
            i = i + 1;
        }
        push_str(&mut out, "}\n");
        proof {
            assert(out@ =~= spec_dump_dot(self.spec_name(), self.spec_nodes()));
        }
        out
    }
}

} // verus!
