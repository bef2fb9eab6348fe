//! The layered graph of the graph-pipeline case: `levels` levels of `length`
//! nodes each, every node linked to one to four nodes of the next level.  The
//! targets come from a shuffled order of the next level's nodes, reshuffled
//! whenever it runs out; how many targets a node gets comes from a draw of
//! the C library's generator, which the caller supplies.

use vstd::prelude::*;
use vstd::wrapping::i32_specs::wrapping_add;
use crate::compare::{shuffled, ShuffleRng};
use crate::kernels::{graph_pipeline_value, graph_pipeline_work};

verus! {

/// `0, 1, ..., n - 1`.
pub open spec fn iota(n: nat) -> Seq<usize> {
    Seq::new(n, |i: int| i as usize)
}

/// How many targets a node with draw `d` asks for: one to four.
pub open spec fn edge_count(d: u32) -> nat {
    1 + (d % 4) as nat
}

/// The target lists of nodes `index..length` of one level, and the shuffler
/// state after them: node `index` takes the next `edge_count` nodes of `perm`
/// from `start` on; when that reaches the end of `perm`, it takes the rest and
/// `perm` is shuffled again for the following nodes.
pub open spec fn level_edges(rng: u64, perm: Seq<usize>, start: nat, index: nat, length: nat, draws: Seq<u32>) -> (Seq<Seq<usize>>, u64)
    decreases length - index,
{
    if index >= length {
        (Seq::empty(), rng)
    } else {
        let k = edge_count(draws[index as int]);
        if start + k >= length {
            let next = shuffled(rng, perm);
            let rest = level_edges(next.0, next.1, 0, index + 1, length, draws);
            (seq![perm.subrange(start as int, length as int)] + rest.0, rest.1)
        } else {
            let rest = level_edges(rng, perm, start + k, index + 1, length, draws);
            (seq![perm.subrange(start as int, (start + k) as int)] + rest.0, rest.1)
        }
    }
}

/// The target lists of every node of levels `level..levels`, in node order:
/// each level starts from a fresh shuffle of `0..length`.
pub open spec fn levels_edges(rng: u64, level: nat, levels: nat, length: nat, draws: Seq<u32>) -> Seq<Seq<usize>>
    decreases levels - level,
{
    if level >= levels {
        Seq::empty()
    } else {
        let first = shuffled(rng, iota(length));
        let here = level_edges(first.0, first.1, 0, 0, length, draws.subrange((level * length) as int, ((level + 1) * length) as int));
        here.0 + levels_edges(here.1, level + 1, levels, length, draws)
    }
}

/// The hits of node `i`'s target list `edges` on `d`: `(i, e)` for each
/// position `e` holding `d`, in order.
pub open spec fn hits(edges: Seq<usize>, d: usize, i: usize) -> Seq<(usize, usize)>
    decreases edges.len(),
{
    if edges.len() == 0 {
        Seq::empty()
    } else {
        let before = hits(edges.drop_last(), d, i);
        if edges.last() == d {
            before.push((i, (edges.len() - 1) as usize))
        } else {
            before
        }
    }
}

/// The sources of node `d` among the target lists `lists` of the previous
/// level: `(i, e)` in order of `i`, then of `e`.
pub open spec fn sources_into(lists: Seq<Seq<usize>>, d: usize) -> Seq<(usize, usize)>
    decreases lists.len(),
{
    if lists.len() == 0 {
        Seq::empty()
    } else {
        sources_into(lists.drop_last(), d) + hits(lists.last(), d, (lists.len() - 1) as usize)
    }
}

/// The source lists of `n` nodes of levels of `length`: none on the first
/// level, else the sources in the previous level's target lists.
pub open spec fn in_lists(out: Seq<Seq<usize>>, length: nat, n: nat) -> Seq<Seq<(usize, usize)>> {
    Seq::new(
        n,
        |u: int|
            if u < length {
                Seq::empty()
            } else {
                sources_into(out.subrange((u / length as int - 1) * length, (u / length as int) * length), (u % length as int) as usize)
            },
    )
}

/// A layered graph: node `(level, index)` has number `level * length +
/// index`; its target list and its source list are kept under that number.
pub struct LevelGraph {
    length: usize,
    levels: usize,
    out_edges: Vec<Vec<usize>>,
    in_edges: Vec<Vec<(usize, usize)>>,
}

/// What a layered graph is: its dimensions, and the target and source list
/// of each node by number.
pub struct LevelGraphView {
    pub length: nat,
    pub levels: nat,
    pub out_edges: Seq<Seq<usize>>,
    pub in_edges: Seq<Seq<(usize, usize)>>,
}

/// The views of a list of lists.
pub open spec fn list_views<A>(v: Seq<Vec<A>>) -> Seq<Seq<A>> {
    v.map_values(|x: Vec<A>| x@)
}

impl View for LevelGraph {
    type V = LevelGraphView;

    closed spec fn view(&self) -> LevelGraphView {
        LevelGraphView {
            length: self.length as nat,
            levels: self.levels as nat,
            out_edges: list_views(self.out_edges@),
            in_edges: list_views(self.in_edges@),
        }
    }
}

/// The layered graph for `length`, `levels` and the draws of its nodes in
/// node order; the shuffler starts from seed 0.
pub open spec fn spec_level_graph(length: nat, levels: nat, draws: Seq<u32>) -> LevelGraphView {
    let out = levels_edges(1, 0, levels, length, draws);
    LevelGraphView { length, levels, out_edges: out, in_edges: in_lists(out, length, levels * length) }
}

/// The graph has `levels * length` nodes, few enough to number as `i32`;
/// no node has more than four targets, and every source lies on the
/// previous level.
pub open spec fn graph_ok(g: LevelGraphView) -> bool {
    &&& g.out_edges.len() == g.levels * g.length
    &&& g.in_edges.len() == g.levels * g.length
    &&& g.levels * g.length <= i32::MAX
    &&& forall|u: int| 0 <= u < g.out_edges.len() ==> #[trigger] g.out_edges[u].len() <= 4
    &&& forall|u: int, k: int| 0 <= u < g.in_edges.len() && 0 <= k < g.in_edges[u].len()
        ==> (#[trigger] g.in_edges[u][k]).0 < g.length
}

/// The size of a graph as the suite reports it: each node counts once, and
/// once more for each of its targets.
pub open spec fn sizes_sum(out: Seq<Seq<usize>>) -> nat
    decreases out.len(),
{
    if out.len() == 0 {
        0
    } else {
        sizes_sum(out.drop_last()) + 1 + out.last().len()
    }
}

impl LevelGraph {
    #[verifier::type_invariant]
    spec fn well_formed(self) -> bool {
        graph_ok(self@)
    }

    pub fn length(&self) -> (r: usize)
        ensures
            r == self@.length,
    {
        self.length
    }

    pub fn levels(&self) -> (r: usize)
        ensures
            r == self@.levels,
    {
        self.levels
    }

    /// The targets of node `u`, as indices on the next level.
    pub fn out_edges(&self, u: usize) -> (r: &Vec<usize>)
        requires
            u < self@.levels * self@.length,
        ensures
            r@ == self@.out_edges[u as int],
    {
        proof {
            use_type_invariant(self);
        }
        &self.out_edges[u]
    }

    /// The sources of node `u`: `(i, e)` for target `e` of node `i` of the
    /// previous level.
    pub fn in_edges(&self, u: usize) -> (r: &Vec<(usize, usize)>)
        requires
            u < self@.levels * self@.length,
        ensures
            r@ == self@.in_edges[u as int],
    {
        proof {
            use_type_invariant(self);
        }
        &self.in_edges[u]
    }

    /// The number of nodes plus the number of edges, the size by which the
    /// suite labels the graph.
    pub fn graph_size(&self) -> (r: usize)
        requires
            5 * (self@.levels * self@.length) <= usize::MAX,
        ensures
            r == sizes_sum(self@.out_edges),
    {
        proof {
            use_type_invariant(self);
        }
        let n = self.levels * self.length;
        let mut total: usize = 0;
        let mut u: usize = 0;
        while u < n
            invariant
                graph_ok(self@),
                n == self@.levels * self@.length,
                5 * n <= usize::MAX,
                u <= n,
                total == sizes_sum(self@.out_edges.take(u as int)),
                total <= 5 * u,
            decreases n - u,
        {
            proof {
                assert(self@.out_edges.take(u + 1).drop_last() =~= self@.out_edges.take(u as int));
                assert(self@.out_edges[u as int] == self.out_edges@[u as int]@);
                assert(self@.out_edges[u as int].len() <= 4);
            }
            total = total + 1 + self.out_edges[u].len();
            u = u + 1;
        }
        proof {
            assert(self@.out_edges.take(n as int) =~= self@.out_edges);
        }
        total
    }

    /// The number of node `index` of `level`.
    pub fn uid(&self, level: usize, index: usize) -> (r: usize)
        requires
            level < self@.levels,
            index < self@.length,
        ensures
            r == level * self@.length + index,
    {
        proof {
            use_type_invariant(self);
            assert(level * self@.length + index < self@.levels * self@.length) by (nonlinear_arith)
                requires level < self@.levels, index < self@.length;
        }
        level * self.length + index
    }
}

proof fn lemma_level_index(level: nat, length: nat, index: nat, levels: nat)
    requires
        level < levels,
        index < length,
    ensures
        level * length + index < levels * length,
        (level + 1) * length <= levels * length,
        level * length + length == (level + 1) * length,
{
    assert(level * length + index < levels * length) by (nonlinear_arith)
        requires level < levels, index < length;
    assert((level + 1) * length <= levels * length) by (nonlinear_arith)
        requires level < levels;
    assert(level * length + length == (level + 1) * length) by (nonlinear_arith);
}

proof fn lemma_level_len(rng: u64, perm: Seq<usize>, start: nat, index: nat, length: nat, draws: Seq<u32>)
    requires
        index <= length,
    ensures
        level_edges(rng, perm, start, index, length, draws).0.len() == length - index,
    decreases length - index,
{
    if index < length {
        let k = edge_count(draws[index as int]);
        if start + k >= length {
            let next = shuffled(rng, perm);
            lemma_level_len(next.0, next.1, 0, index + 1, length, draws);
        } else {
            lemma_level_len(rng, perm, start + k, index + 1, length, draws);
        }
    }
}

proof fn lemma_shuffle_steps_len<T>(state: u64, s: Seq<T>, index: nat)
    requires
        index < s.len(),
        s.len() <= u64::MAX,
    ensures
        crate::compare::shuffle_steps(state, s, index).1.len() == s.len(),
    decreases index,
{
    if index > 0 {
        let next = crate::compare::lcg_next(state);
        let b = (index + 1) as u64;
        assert(b == index + 1);
        let m = next % b;
        assert(m < b);
        let choice = m as int;
        let t = crate::sort::swapped(s, index as int, choice);
        assert(t.len() == s.len());
        assert(crate::compare::shuffle_steps(state, s, index) == crate::compare::shuffle_steps(next, t, (index - 1) as nat));
        lemma_shuffle_steps_len(next, t, (index - 1) as nat);
    }
}

proof fn lemma_shuffled_len<T>(state: u64, s: Seq<T>)
    requires
        s.len() <= u64::MAX,
    ensures
        shuffled(state, s).1.len() == s.len(),
{
    if s.len() >= 2 {
        lemma_shuffle_steps_len(state, s, (s.len() - 1) as nat);
    }
}

proof fn lemma_level_short(rng: u64, perm: Seq<usize>, start: nat, index: nat, length: nat, draws: Seq<u32>)
    requires
        start <= length,
        perm.len() == length,
        length <= u64::MAX,
    ensures
        forall|j: int| 0 <= j < level_edges(rng, perm, start, index, length, draws).0.len()
            ==> #[trigger] level_edges(rng, perm, start, index, length, draws).0[j].len() <= 4,
    decreases length - index,
{
    if index < length {
        let k = edge_count(draws[index as int]);
        if start + k >= length {
            let next = shuffled(rng, perm);
            lemma_shuffled_len(rng, perm);
            lemma_level_short(next.0, next.1, 0, index + 1, length, draws);
        } else {
            lemma_level_short(rng, perm, start + k, index + 1, length, draws);
        }
        let all = level_edges(rng, perm, start, index, length, draws).0;
        assert forall|j: int| 0 <= j < all.len() implies #[trigger] all[j].len() <= 4 by {
            if j > 0 {
                if start + k >= length {
                    let next = shuffled(rng, perm);
                    assert(all[j] == level_edges(next.0, next.1, 0, index + 1, length, draws).0[j - 1]);
                } else {
                    assert(all[j] == level_edges(rng, perm, start + k, index + 1, length, draws).0[j - 1]);
                }
            }
        }
    }
}

proof fn lemma_levels_short(rng: u64, level: nat, levels: nat, length: nat, draws: Seq<u32>)
    requires
        length <= u64::MAX,
    ensures
        forall|j: int| 0 <= j < levels_edges(rng, level, levels, length, draws).len()
            ==> #[trigger] levels_edges(rng, level, levels, length, draws)[j].len() <= 4,
    decreases levels - level,
{
    if level < levels {
        let first = shuffled(rng, iota(length));
        let d = draws.subrange((level * length) as int, ((level + 1) * length) as int);
        let here = level_edges(first.0, first.1, 0, 0, length, d);
        lemma_shuffled_len(rng, iota(length));
        lemma_level_short(first.0, first.1, 0, 0, length, d);
        lemma_levels_short(here.1, level + 1, levels, length, draws);
        let all = levels_edges(rng, level, levels, length, draws);
        let rest = levels_edges(here.1, level + 1, levels, length, draws);
        assert(all == here.0 + rest);
        assert forall|j: int| 0 <= j < all.len() implies #[trigger] all[j].len() <= 4 by {
            if j < here.0.len() {
                assert(all[j] == here.0[j]);
            } else {
                assert(all[j] == rest[j - here.0.len()]);
            }
        }
    }
}

/// The numbers `0..n` in order.
fn iota_vec(n: usize) -> (r: Vec<usize>)
    ensures
        r@ == iota(n as nat),
{
    let mut v: Vec<usize> = Vec::new();
    let mut i: usize = 0;
    while i < n
        invariant
            i <= n,
            v@ == iota(i as nat),
        decreases n - i,
    {
        v.push(i);
        i = i + 1;
        proof {
            assert(v@ =~= iota(i as nat));
        }
    }
    v
}

/// A copy of `v[a..b]`.
fn copy_slice(v: &Vec<usize>, a: usize, b: usize) -> (r: Vec<usize>)
    requires
        a <= b <= v@.len(),
    ensures
        r@ == v@.subrange(a as int, b as int),
{
    let mut r: Vec<usize> = Vec::new();
    let mut i = a;
    while i < b
        invariant
            a <= i <= b <= v@.len(),
            r@ == v@.subrange(a as int, i as int),
        decreases b - i,
    {
        r.push(v[i]);
        i = i + 1;
        proof {
            assert(r@ =~= v@.subrange(a as int, i as int));
        }
    }
    r
}

/// The target lists of one level, as `level_edges` describes them.
#[verifier::rlimit(60)]
fn build_level(rng: &mut ShuffleRng, length: usize, draws: &Vec<u32>, offset: usize, out: &mut Vec<Vec<usize>>)
    requires
        offset + length <= draws@.len(),
        length <= i32::MAX,
    ensures
        ({
            let d = draws@.subrange(offset as int, offset + length);
            let first = shuffled(old(rng).state, iota(length as nat));
            let here = level_edges(first.0, first.1, 0, 0, length as nat, d);
            &&& list_views(final(out)@) == list_views(old(out)@) + here.0
            &&& final(rng).state == here.1
        }),
{
    let ghost d = draws@.subrange(offset as int, offset + length);
    let ghost first = shuffled(rng.state, iota(length as nat));
    let ghost target = level_edges(first.0, first.1, 0, 0, length as nat, d);
    let ghost out0 = list_views(out@);
    let mut perm = iota_vec(length);
    let ghost p0 = perm@;
    let ghost r0 = rng.state;
    rng.shuffle(&mut perm);
    proof {
        lemma_shuffled_len(r0, p0);
    }
    let mut start: usize = 0;
    let mut index: usize = 0;
    let dl = draws.len();
    while index < length
        invariant
            dl == draws@.len(),
            length <= i32::MAX,
            offset + length <= draws@.len(),
            d == draws@.subrange(offset as int, offset + length),
            perm@.len() == length,
            index <= length,
            index < length ==> start < length,
            list_views(out@) + level_edges(rng.state, perm@, start as nat, index as nat, length as nat, d).0 == out0 + target.0,
            level_edges(rng.state, perm@, start as nat, index as nat, length as nat, d).1 == target.1,
        decreases length - index,
    {
        let ghost before = list_views(out@);
        let ghost rest_old = level_edges(rng.state, perm@, start as nat, index as nat, length as nat, d);
        let k = 1 + (draws[offset + index] % 4) as usize;
        proof {
            assert(d[index as int] == draws@[offset + index]);
        }
        if start + k >= length {
            let edges = copy_slice(&perm, start, length);
            out.push(edges);
            let ghost rest_new = level_edges(shuffled(rng.state, perm@).0, shuffled(rng.state, perm@).1, 0, (index + 1) as nat, length as nat, d);
            let ghost old_perm = perm@;
            let ghost old_state = rng.state;
            rng.shuffle(&mut perm);
            proof {
                lemma_shuffled_len(old_state, old_perm);
                assert(rest_old.0 == seq![edges@] + rest_new.0);
                assert(list_views(out@) =~= before.push(edges@));
                assert(list_views(out@) + rest_new.0 =~= before + rest_old.0);
            }
            start = 0;
        } else {
            let edges = copy_slice(&perm, start, start + k);
            out.push(edges);
            let ghost rest_new = level_edges(rng.state, perm@, (start + k) as nat, (index + 1) as nat, length as nat, d);
            proof {
                assert(rest_old.0 == seq![edges@] + rest_new.0);
                assert(list_views(out@) =~= before.push(edges@));
                assert(list_views(out@) + rest_new.0 =~= before + rest_old.0);
            }
            start = start + k;
        }
        index = index + 1;
    }
    proof {
        let rest = level_edges(rng.state, perm@, start as nat, index as nat, length as nat, d);
        assert(rest.0 =~= Seq::<Seq<usize>>::empty());
        assert(list_views(out@) =~= list_views(out@) + rest.0);
    }
}

/// The sources of node `d` among the target lists `out[base..base + length]`.
fn sources_of(out: &Vec<Vec<usize>>, base: usize, length: usize, d: usize) -> (r: Vec<(usize, usize)>)
    requires
        base + length <= out@.len(),
    ensures
        r@ == sources_into(list_views(out@).subrange(base as int, base + length), d),
        forall|k: int| 0 <= k < r@.len() ==> (#[trigger] r@[k]).0 < length,
{
    let ghost lists = list_views(out@).subrange(base as int, base + length);
    let mut r: Vec<(usize, usize)> = Vec::new();
    let mut i: usize = 0;
    let ol = out.len();
    while i < length
        invariant
            ol == out@.len(),
            base + length <= out@.len(),
            lists == list_views(out@).subrange(base as int, base + length),
            i <= length,
            r@ == sources_into(lists.take(i as int), d),
            forall|k: int| 0 <= k < r@.len() ==> (#[trigger] r@[k]).0 < length,
        decreases length - i,
    {
        let edges = &out[base + i];
        let ghost prefix = r@;
        proof {
            assert(lists[i as int] == edges@);
        }
        let mut e: usize = 0;
        while e < edges.len()
            invariant
                i < length,
                e <= edges@.len(),
                r@ == prefix + hits(edges@.take(e as int), d, i),
                forall|k: int| 0 <= k < r@.len() ==> (#[trigger] r@[k]).0 < length,
            decreases edges@.len() - e,
        {
            proof {
                assert(edges@.take(e + 1).drop_last() =~= edges@.take(e as int));
                assert(edges@.take(e + 1).last() == edges@[e as int]);
            }
            if edges[e] == d {
                r.push((i, e));
                proof {
                    assert(r@ =~= prefix + hits(edges@.take(e + 1), d, i));
                }
            }
            e = e + 1;
        }
        proof {
            assert(edges@.take(e as int) =~= edges@);
            assert(lists.take(i + 1).drop_last() =~= lists.take(i as int));
            assert(lists.take(i + 1).last() == edges@);
        }
        i = i + 1;
    }
    proof {
        assert(lists.take(i as int) =~= lists);
    }
    r
}

/// Builds the layered graph of `levels` levels of `length` nodes from the
/// draws of its nodes, in node order (the comparison suite passes the C
/// library's `rand()` values, taken as unsigned, after `srand(0)`).
pub fn level_graph(length: usize, levels: usize, draws: &Vec<u32>) -> (g: LevelGraph)
    requires
        levels * length <= i32::MAX,
        draws@.len() == levels * length,
    ensures
        g@ == spec_level_graph(length as nat, levels as nat, draws@),
{
    let mut rng = ShuffleRng::new(0);
    proof {
        assert(0u64 | 1u64 == 1u64) by (bit_vector);
    }
    let ghost total = levels_edges(1, 0, levels as nat, length as nat, draws@);
    let mut out: Vec<Vec<usize>> = Vec::new();
    let mut level: usize = 0;
    while level < levels
        invariant
            levels * length <= i32::MAX,
            draws@.len() == levels * length,
            level <= levels,
            list_views(out@) + levels_edges(rng.state, level as nat, levels as nat, length as nat, draws@) == total,
            out@.len() == level * length,
            list_views(out@).len() == out@.len(),
        decreases levels - level,
    {
        proof {
            if length > 0 {
                lemma_level_index(level as nat, length as nat, 0, levels as nat);
            } else {
                assert(level * length == 0 && (level + 1) * length == 0) by (nonlinear_arith)
                    requires length == 0;
            }
            assert((level + 1) * length <= levels * length) by (nonlinear_arith)
                requires level < levels;
            assert(level * length + length == (level + 1) * length) by (nonlinear_arith);
        }
        let offset = level * length;
        let ghost before = list_views(out@);
        let ghost old_rng = rng.state;
        let ghost first = shuffled(rng.state, iota(length as nat));
        let ghost here = level_edges(first.0, first.1, 0, 0, length as nat, draws@.subrange(offset as int, offset + length));
        build_level(&mut rng, length, draws, offset, &mut out);
        proof {
            lemma_level_len(first.0, first.1, 0, 0, length as nat, draws@.subrange(offset as int, offset + length));
            assert(levels_edges(old_rng, level as nat, levels as nat, length as nat, draws@)
                == here.0 + levels_edges(here.1, (level + 1) as nat, levels as nat, length as nat, draws@));
            assert(list_views(out@) + levels_edges(rng.state, (level + 1) as nat, levels as nat, length as nat, draws@)
                =~= before + levels_edges(old_rng, level as nat, levels as nat, length as nat, draws@));
            assert(list_views(out@).len() == out@.len());
            assert(before.len() == level * length);
        }
        level = level + 1;
    }
    proof {
        assert(list_views(out@) =~= total);
        lemma_levels_short(1, 0, levels as nat, length as nat, draws@);
    }
    let n = levels * length;
    let mut inn: Vec<Vec<(usize, usize)>> = Vec::new();
    let mut u: usize = 0;
    while u < n
        invariant
            n == levels * length,
            n <= i32::MAX,
            list_views(out@) == total,
            out@.len() == n,
            u <= n,
            inn@.len() == u,
            list_views(inn@) == in_lists(total, length as nat, n as nat).take(u as int),
            forall|q: int, k: int| 0 <= q < inn@.len() && 0 <= k < inn@[q]@.len() ==> (#[trigger] inn@[q]@[k]).0 < length,
        decreases n - u,
    {
        let ghost before = list_views(inn@);
        if u < length {
            let empty: Vec<(usize, usize)> = Vec::new();
            proof {
                assert(in_lists(total, length as nat, n as nat)[u as int] == empty@);
            }
            inn.push(empty);
            proof {
                assert(inn@[u as int]@ == in_lists(total, length as nat, n as nat)[u as int]);
            }
        } else {
            let level = u / length;
            let d = u % length;
            proof {
                assert(level >= 1) by (nonlinear_arith)
                    requires level == u / length, length > 0, u >= length;
                assert(level * length <= u) by (nonlinear_arith)
                    requires level == u / length, length > 0;
                assert((level - 1) * length + length == level * length) by (nonlinear_arith);
            }
            let base = (level - 1) * length;
            let sources = sources_of(&out, base, length, d);
            let ghost sv = sources@;
            proof {
                assert(u as int / length as int == level as int);
                assert(u as int % length as int == d as int);
                assert(in_lists(total, length as nat, n as nat)[u as int] == sources@);
            }
            inn.push(sources);
            proof {
                assert(inn@[u as int]@ == sv);
            }
        }
        proof {
            assert(list_views(inn@) =~= before.push(in_lists(total, length as nat, n as nat)[u as int]));
            assert(list_views(inn@) =~= in_lists(total, length as nat, n as nat).take(u + 1));
        }
        u = u + 1;
    }
    proof {
        assert(in_lists(total, length as nat, n as nat).take(n as int) =~= in_lists(total, length as nat, n as nat));
    }
    LevelGraph { length, levels, out_edges: out, in_edges: inn }
}

/// The sum, wrapping at 32 bits, of the values of the sources `srcs`, whose
/// nodes are numbered from `base` on.
pub open spec fn carry(values: Seq<i32>, srcs: Seq<(usize, usize)>, base: int) -> i32
    decreases srcs.len(),
{
    if srcs.len() == 0 {
        0
    } else {
        wrapping_add(carry(values, srcs.drop_last(), base), values[base + srcs.last().0])
    }
}

/// The value of node `u` given the values of the nodes before it: its work
/// value, plus (wrapping at 32 bits) the values of its sources on the
/// previous level.
pub open spec fn node_value(g: LevelGraphView, values: Seq<i32>, u: nat) -> i32 {
    let work = graph_pipeline_value(u as int) as i32;
    if u < g.length {
        work
    } else {
        wrapping_add(work, carry(values, g.in_edges[u as int], (u as int / g.length as int - 1) * g.length))
    }
}

/// The values of nodes `0..u`, as the pipeline's stages leave them: nodes
/// are handled in number order, each after all nodes of the levels above.
pub open spec fn node_values(g: LevelGraphView, u: nat) -> Seq<i32>
    decreases u,
{
    if u == 0 {
        Seq::empty()
    } else {
        let before = node_values(g, (u - 1) as nat);
        before.push(node_value(g, before, (u - 1) as nat))
    }
}

/// The sum of `values`.
pub open spec fn sum_values(values: Seq<i32>) -> int
    decreases values.len(),
{
    if values.len() == 0 {
        0
    } else {
        sum_values(values.drop_last()) + values.last()
    }
}

/// The checksum of the graph-pipeline case: the sum of all node values.
pub open spec fn spec_graph_pipeline_checksum(g: LevelGraphView) -> int {
    sum_values(node_values(g, g.levels * g.length))
}

proof fn lemma_node_values_len(g: LevelGraphView, u: nat)
    ensures
        node_values(g, u).len() == u,
    decreases u,
{
    if u > 0 {
        lemma_node_values_len(g, (u - 1) as nat);
    }
}

proof fn lemma_sum_bound(values: Seq<i32>)
    ensures
        -0x8000_0000 * values.len() <= sum_values(values) <= 0x7fff_ffff * values.len(),
    decreases values.len(),
{
    if values.len() > 0 {
        lemma_sum_bound(values.drop_last());
    }
}

/// The checksum the graph-pipeline case computes: every node's value is its
/// work value plus the values of its sources on the previous level, and the
/// checksum is the sum of all values.
pub fn graph_pipeline_checksum(g: &LevelGraph) -> (r: i64)
    ensures
        r == spec_graph_pipeline_checksum(g@),
{
    proof {
        use_type_invariant(g);
    }
    let n = g.levels * g.length;
    let length = g.length;
    let mut values: Vec<i32> = Vec::new();
    let mut sum: i64 = 0;
    let mut u: usize = 0;
    while u < n
        invariant
            graph_ok(g@),
            n == g@.levels * g@.length,
            length == g@.length,
            u <= n,
            values@ == node_values(g@, u as nat),
            sum == sum_values(values@),
        decreases n - u,
    {
        proof {
            lemma_node_values_len(g@, u as nat);
        }
        let work = graph_pipeline_work(u as i32);
        let value = if u < length {
            work
        } else {
            proof {
                assert(length > 0) by (nonlinear_arith)
                    requires u < n, n == g@.levels * length;
            }
            let level = u / length;
            proof {
                assert(level >= 1) by (nonlinear_arith)
                    requires level == u / length, length > 0, u >= length;
                assert(level * length <= u) by (nonlinear_arith)
                    requires level == u / length, length > 0;
                assert((level - 1) * length + length == level * length) by (nonlinear_arith);
            }
            let base = (level - 1) * length;
            let srcs = &g.in_edges[u];
            proof {
                assert(g@.in_edges[u as int] == srcs@);
            }
            let mut c: i32 = 0;
            let mut k: usize = 0;
            while k < srcs.len()
                invariant
                    graph_ok(g@),
                    u < n,
                    n == g@.levels * g@.length,
                    length == g@.length,
                    u < g@.in_edges.len(),
                    srcs@ == g@.in_edges[u as int],
                    values@.len() == u,
                    base + length <= u,
                    k <= srcs@.len(),
                    c == carry(values@, srcs@.take(k as int), base as int),
                decreases srcs@.len() - k,
            {
                proof {
                    assert(g@.in_edges[u as int][k as int] == srcs@[k as int]);
                    assert(srcs@[k as int].0 < g@.length);
                    assert(srcs@.take(k + 1).drop_last() =~= srcs@.take(k as int));
                    assert(srcs@.take(k + 1).last() == srcs@[k as int]);
                }
                let src = srcs[k].0;
                c = c.wrapping_add(values[base + src]);
                k = k + 1;
            }
            proof {
                assert(srcs@.take(k as int) =~= srcs@);
                assert(u as int / length as int == level as int);
            }
            work.wrapping_add(c)
        };
        proof {
            assert(value == node_value(g@, values@, u as nat));
            lemma_sum_bound(values@);
            assert(-0x8000_0000 * (u as int) >= -0x8000_0000 * 0x7fff_ffff) by (nonlinear_arith)
                requires u <= 0x7fff_ffff;
            assert(0x7fff_ffff * (u as int) <= 0x7fff_ffff * 0x7fff_ffff) by (nonlinear_arith)
                requires u <= 0x7fff_ffff;
        }
        values.push(value);
        sum = sum + value as i64;
        proof {
            assert(values@.drop_last() =~= node_values(g@, u as nat));
        }
        u = u + 1;
    }
    sum
}

} // verus!
