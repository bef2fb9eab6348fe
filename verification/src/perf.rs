use vstd::prelude::*;
use crate::text::{push_decimal, push_str, spec_decimal};

verus! {

/// Counters of how a pipeline run coordinated its stages and waited for its lines.
#[derive(Clone, Copy, Debug, PartialEq, Eq, Structural)]
pub struct PipelineProfile {
    pub stage0_total_acquires: u64,
    pub stage0_contended_acquires: u64,
    pub stage0_wait_ns: u64,
    pub stage0_spins: u64,
    pub stage0_yields: u64,
    pub downstream_total_acquires: u64,
    pub downstream_contended_acquires: u64,
    pub downstream_wait_ns: u64,
    pub downstream_spins: u64,
    pub downstream_yields: u64,
    pub corun_total_wait_ns: u64,
    pub corun_idle_wait_ns: u64,
    pub corun_idle_spins: u64,
    pub corun_idle_yields: u64,
    pub corun_inline_executions: u64,
}

pub open spec fn pipeline_profile_zero() -> PipelineProfile {
    PipelineProfile {
        stage0_total_acquires: 0,
        stage0_contended_acquires: 0,
        stage0_wait_ns: 0,
        stage0_spins: 0,
        stage0_yields: 0,
        downstream_total_acquires: 0,
        downstream_contended_acquires: 0,
        downstream_wait_ns: 0,
        downstream_spins: 0,
        downstream_yields: 0,
        corun_total_wait_ns: 0,
        corun_idle_wait_ns: 0,
        corun_idle_spins: 0,
        corun_idle_yields: 0,
        corun_inline_executions: 0,
    }
}

impl Default for PipelineProfile {
    fn default() -> (r: Self)
        ensures
            r == pipeline_profile_zero(),
    {
        PipelineProfile {
            stage0_total_acquires: 0,
            stage0_contended_acquires: 0,
            stage0_wait_ns: 0,
            stage0_spins: 0,
            stage0_yields: 0,
            downstream_total_acquires: 0,
            downstream_contended_acquires: 0,
            downstream_wait_ns: 0,
            downstream_spins: 0,
            downstream_yields: 0,
            corun_total_wait_ns: 0,
            corun_idle_wait_ns: 0,
            corun_idle_spins: 0,
            corun_idle_yields: 0,
            corun_inline_executions: 0,
        }
    }
}

/// `a + b` modulo 2^64, as an atomic counter adds.
pub open spec fn wadd(a: u64, b: u64) -> u64 {
    if a + b > u64::MAX { (a + b - u64::MAX - 1) as u64 } else { (a + b) as u64 }
}

pub fn add_wrapping(a: u64, b: u64) -> (r: u64)
    ensures
        r == wadd(a, b),
{
    if b > u64::MAX - a {
        b - (u64::MAX - a) - 1
    } else {
        a + b
    }
}

/// A duration in nanoseconds, capped at what a `u64` holds.
pub fn duration_nanos(nanos: u128) -> (r: u64)
    ensures
        r == (if nanos > u64::MAX { u64::MAX as u128 } else { nanos }),
{
    if nanos > u64::MAX as u128 {
        u64::MAX
    } else {
        nanos as u64
    }
}

pub open spec fn cap_nanos(nanos: u128) -> u64 {
    if nanos > u64::MAX { u64::MAX } else { nanos as u64 }
}

impl PipelineProfile {
    /// Nothing was recorded.
    pub fn is_empty(&self) -> (r: bool)
        ensures
            r == (*self == pipeline_profile_zero()),
    {
        self.stage0_total_acquires == 0 && self.stage0_contended_acquires == 0
            && self.stage0_wait_ns == 0 && self.stage0_spins == 0 && self.stage0_yields == 0
            && self.downstream_total_acquires == 0 && self.downstream_contended_acquires == 0
            && self.downstream_wait_ns == 0 && self.downstream_spins == 0
            && self.downstream_yields == 0 && self.corun_total_wait_ns == 0
            && self.corun_idle_wait_ns == 0 && self.corun_idle_spins == 0
            && self.corun_idle_yields == 0 && self.corun_inline_executions == 0
    }

    /// A serial stage was entered without waiting.
    pub fn record_stage_fast_path(&mut self, is_stage0: bool)
        ensures
            is_stage0 ==> *final(self) == (PipelineProfile { stage0_total_acquires: wadd(old(self).stage0_total_acquires, 1), ..*old(self) }),
            !is_stage0 ==> *final(self) == (PipelineProfile { downstream_total_acquires: wadd(old(self).downstream_total_acquires, 1), ..*old(self) }),
    {
        if is_stage0 {
            self.stage0_total_acquires = add_wrapping(self.stage0_total_acquires, 1);
        } else {
            self.downstream_total_acquires = add_wrapping(self.downstream_total_acquires, 1);
        }
    }

    /// A serial stage was entered after waiting for `elapsed_nanos`, with the
    /// given numbers of spins and yields.
    pub fn record_stage_wait(&mut self, is_stage0: bool, elapsed_nanos: u128, spins: u64, yields: u64)
        ensures
            is_stage0 ==> *final(self) == (PipelineProfile {
                stage0_total_acquires: wadd(old(self).stage0_total_acquires, 1),
                stage0_contended_acquires: wadd(old(self).stage0_contended_acquires, 1),
                stage0_wait_ns: wadd(old(self).stage0_wait_ns, cap_nanos(elapsed_nanos)),
                stage0_spins: wadd(old(self).stage0_spins, spins),
                stage0_yields: wadd(old(self).stage0_yields, yields),
                ..*old(self)
            }),
            !is_stage0 ==> *final(self) == (PipelineProfile {
                downstream_total_acquires: wadd(old(self).downstream_total_acquires, 1),
                downstream_contended_acquires: wadd(old(self).downstream_contended_acquires, 1),
                downstream_wait_ns: wadd(old(self).downstream_wait_ns, cap_nanos(elapsed_nanos)),
                downstream_spins: wadd(old(self).downstream_spins, spins),
                downstream_yields: wadd(old(self).downstream_yields, yields),
                ..*old(self)
            }),
    {
        let ns = duration_nanos(elapsed_nanos);
        if is_stage0 {
            self.stage0_total_acquires = add_wrapping(self.stage0_total_acquires, 1);
            self.stage0_contended_acquires = add_wrapping(self.stage0_contended_acquires, 1);
            self.stage0_wait_ns = add_wrapping(self.stage0_wait_ns, ns);
            self.stage0_spins = add_wrapping(self.stage0_spins, spins);
            self.stage0_yields = add_wrapping(self.stage0_yields, yields);
        } else {
            self.downstream_total_acquires = add_wrapping(self.downstream_total_acquires, 1);
            self.downstream_contended_acquires = add_wrapping(self.downstream_contended_acquires, 1);
            self.downstream_wait_ns = add_wrapping(self.downstream_wait_ns, ns);
            self.downstream_spins = add_wrapping(self.downstream_spins, spins);
            self.downstream_yields = add_wrapping(self.downstream_yields, yields);
        }
    }

    pub fn record_corun_total_wait(&mut self, elapsed_nanos: u128)
        ensures
            *final(self) == (PipelineProfile { corun_total_wait_ns: wadd(old(self).corun_total_wait_ns, cap_nanos(elapsed_nanos)), ..*old(self) }),
    {
        self.corun_total_wait_ns = add_wrapping(self.corun_total_wait_ns, duration_nanos(elapsed_nanos));
    }

    pub fn record_corun_idle_spin(&mut self, elapsed_nanos: u128)
        ensures
            *final(self) == (PipelineProfile {
                corun_idle_spins: wadd(old(self).corun_idle_spins, 1),
                corun_idle_wait_ns: wadd(old(self).corun_idle_wait_ns, cap_nanos(elapsed_nanos)),
                ..*old(self)
            }),
    {
        self.corun_idle_spins = add_wrapping(self.corun_idle_spins, 1);
        self.corun_idle_wait_ns = add_wrapping(self.corun_idle_wait_ns, duration_nanos(elapsed_nanos));
    }

    pub fn record_corun_idle_yield(&mut self, elapsed_nanos: u128)
        ensures
            *final(self) == (PipelineProfile {
                corun_idle_yields: wadd(old(self).corun_idle_yields, 1),
                corun_idle_wait_ns: wadd(old(self).corun_idle_wait_ns, cap_nanos(elapsed_nanos)),
                ..*old(self)
            }),
    {
        self.corun_idle_yields = add_wrapping(self.corun_idle_yields, 1);
        self.corun_idle_wait_ns = add_wrapping(self.corun_idle_wait_ns, duration_nanos(elapsed_nanos));
    }

    pub fn record_corun_inline_execution(&mut self)
        ensures
            *final(self) == (PipelineProfile { corun_inline_executions: wadd(old(self).corun_inline_executions, 1), ..*old(self) }),
    {
        self.corun_inline_executions = add_wrapping(self.corun_inline_executions, 1);
    }

    /// The counters as one line of text.
    pub fn to_display_string(&self) -> (s: String)
        ensures
            s@ == spec_pipeline_profile_text(*self),
    {
        let mut s = String::new();
        push_str(&mut s, "stage0(total=");
        push_decimal(&mut s, self.stage0_total_acquires);
        push_str(&mut s, ", wait_ns=");
        push_decimal(&mut s, self.stage0_wait_ns);
        push_str(&mut s, ", contended=");
        push_decimal(&mut s, self.stage0_contended_acquires);
        push_str(&mut s, ", spins=");
        push_decimal(&mut s, self.stage0_spins);
        push_str(&mut s, ", yields=");
        push_decimal(&mut s, self.stage0_yields);
        push_str(&mut s, ") downstream(total=");
        push_decimal(&mut s, self.downstream_total_acquires);
        push_str(&mut s, ", wait_ns=");
        push_decimal(&mut s, self.downstream_wait_ns);
        push_str(&mut s, ", contended=");
        push_decimal(&mut s, self.downstream_contended_acquires);
        push_str(&mut s, ", spins=");
        push_decimal(&mut s, self.downstream_spins);
        push_str(&mut s, ", yields=");
        push_decimal(&mut s, self.downstream_yields);
        push_str(&mut s, ") corun(total_wait_ns=");
        push_decimal(&mut s, self.corun_total_wait_ns);
        push_str(&mut s, ", idle_wait_ns=");
        push_decimal(&mut s, self.corun_idle_wait_ns);
        push_str(&mut s, ", idle_spins=");
        push_decimal(&mut s, self.corun_idle_spins);
        push_str(&mut s, ", idle_yields=");
        push_decimal(&mut s, self.corun_idle_yields);
        push_str(&mut s, ", inline_exec=");
        push_decimal(&mut s, self.corun_inline_executions);
        push_str(&mut s, ")");
        proof {
            assert(s@ =~= spec_pipeline_profile_text(*self));
        }
        s
    }
}

pub open spec fn dec(n: u64) -> Seq<char> {
    spec_decimal(n as nat)
}

/// `stage0(total=.., wait_ns=.., contended=.., spins=.., yields=..) downstream(..)
/// corun(total_wait_ns=.., idle_wait_ns=.., idle_spins=.., idle_yields=.., inline_exec=..)`.
pub open spec fn spec_pipeline_profile_text(p: PipelineProfile) -> Seq<char> {
    "stage0(total="@ + dec(p.stage0_total_acquires) + ", wait_ns="@ + dec(p.stage0_wait_ns)
        + ", contended="@ + dec(p.stage0_contended_acquires) + ", spins="@ + dec(p.stage0_spins)
        + ", yields="@ + dec(p.stage0_yields) + ") downstream(total="@ + dec(
        p.downstream_total_acquires,
    ) + ", wait_ns="@ + dec(p.downstream_wait_ns) + ", contended="@ + dec(
        p.downstream_contended_acquires,
    ) + ", spins="@ + dec(p.downstream_spins) + ", yields="@ + dec(p.downstream_yields)
        + ") corun(total_wait_ns="@ + dec(p.corun_total_wait_ns) + ", idle_wait_ns="@ + dec(
        p.corun_idle_wait_ns,
    ) + ", idle_spins="@ + dec(p.corun_idle_spins) + ", idle_yields="@ + dec(
        p.corun_idle_yields,
    ) + ", inline_exec="@ + dec(p.corun_inline_executions) + ")"@
}

/// Counters of how flow runs built snapshots and scheduled graph tasks.
#[derive(Clone, Copy, Debug, PartialEq, Eq, Structural)]
pub struct FlowProfile {
    pub snapshot_cache_hits: u64,
    pub snapshot_cache_misses: u64,
    pub snapshot_total_ns: u64,
    pub snapshot_build_ns: u64,
    pub snapshot_nodes: u64,
    pub snapshot_edges: u64,
    pub snapshot_roots: u64,
    pub run_total_ns: u64,
    pub graph_root_tasks: u64,
    pub graph_tasks_executed: u64,
    pub graph_pending_decrements: u64,
    pub graph_ready_successors: u64,
    pub graph_continuations: u64,
    pub graph_local_enqueues: u64,
    pub graph_global_enqueues: u64,
}

pub open spec fn flow_profile_zero() -> FlowProfile {
    FlowProfile {
        snapshot_cache_hits: 0,
        snapshot_cache_misses: 0,
        snapshot_total_ns: 0,
        snapshot_build_ns: 0,
        snapshot_nodes: 0,
        snapshot_edges: 0,
        snapshot_roots: 0,
        run_total_ns: 0,
        graph_root_tasks: 0,
        graph_tasks_executed: 0,
        graph_pending_decrements: 0,
        graph_ready_successors: 0,
        graph_continuations: 0,
        graph_local_enqueues: 0,
        graph_global_enqueues: 0,
    }
}

impl Default for FlowProfile {
    fn default() -> (r: Self)
        ensures
            r == flow_profile_zero(),
    {
        FlowProfile {
            snapshot_cache_hits: 0,
            snapshot_cache_misses: 0,
            snapshot_total_ns: 0,
            snapshot_build_ns: 0,
            snapshot_nodes: 0,
            snapshot_edges: 0,
            snapshot_roots: 0,
            run_total_ns: 0,
            graph_root_tasks: 0,
            graph_tasks_executed: 0,
            graph_pending_decrements: 0,
            graph_ready_successors: 0,
            graph_continuations: 0,
            graph_local_enqueues: 0,
            graph_global_enqueues: 0,
        }
    }
}

impl FlowProfile {
    /// Nothing was recorded.
    pub fn is_empty(&self) -> (r: bool)
        ensures
            r == (*self == flow_profile_zero()),
    {
        self.snapshot_cache_hits == 0 && self.snapshot_cache_misses == 0
            && self.snapshot_total_ns == 0 && self.snapshot_build_ns == 0
            && self.snapshot_nodes == 0 && self.snapshot_edges == 0 && self.snapshot_roots == 0
            && self.run_total_ns == 0 && self.graph_root_tasks == 0
            && self.graph_tasks_executed == 0 && self.graph_pending_decrements == 0
            && self.graph_ready_successors == 0 && self.graph_continuations == 0
            && self.graph_local_enqueues == 0 && self.graph_global_enqueues == 0
    }

    pub fn record_snapshot_cache_hit(&mut self, elapsed_nanos: u128, nodes: u64, edges: u64, roots: u64)
        ensures
            *final(self) == (FlowProfile {
                snapshot_cache_hits: wadd(old(self).snapshot_cache_hits, 1),
                snapshot_total_ns: wadd(old(self).snapshot_total_ns, cap_nanos(elapsed_nanos)),
                snapshot_nodes: nodes,
                snapshot_edges: edges,
                snapshot_roots: roots,
                ..*old(self)
            }),
    {
        self.snapshot_cache_hits = add_wrapping(self.snapshot_cache_hits, 1);
        self.snapshot_total_ns = add_wrapping(self.snapshot_total_ns, duration_nanos(elapsed_nanos));
        self.snapshot_nodes = nodes;
        self.snapshot_edges = edges;
        self.snapshot_roots = roots;
    }

    pub fn record_snapshot_cache_miss(&mut self, elapsed_nanos: u128, build_nanos: u128, nodes: u64, edges: u64, roots: u64)
        ensures
            *final(self) == (FlowProfile {
                snapshot_cache_misses: wadd(old(self).snapshot_cache_misses, 1),
                snapshot_total_ns: wadd(old(self).snapshot_total_ns, cap_nanos(elapsed_nanos)),
                snapshot_build_ns: wadd(old(self).snapshot_build_ns, cap_nanos(build_nanos)),
                snapshot_nodes: nodes,
                snapshot_edges: edges,
                snapshot_roots: roots,
                ..*old(self)
            }),
    {
        self.snapshot_cache_misses = add_wrapping(self.snapshot_cache_misses, 1);
        self.snapshot_total_ns = add_wrapping(self.snapshot_total_ns, duration_nanos(elapsed_nanos));
        self.snapshot_build_ns = add_wrapping(self.snapshot_build_ns, duration_nanos(build_nanos));
        self.snapshot_nodes = nodes;
        self.snapshot_edges = edges;
        self.snapshot_roots = roots;
    }

    pub fn record_run_completed(&mut self, elapsed_nanos: u128)
        ensures
            *final(self) == (FlowProfile { run_total_ns: cap_nanos(elapsed_nanos), ..*old(self) }),
    {
        self.run_total_ns = duration_nanos(elapsed_nanos);
    }

    pub fn record_graph_root_tasks(&mut self, count: u64)
        ensures
            *final(self) == (FlowProfile { graph_root_tasks: count, ..*old(self) }),
    {
        self.graph_root_tasks = count;
    }

    pub fn record_graph_task_executed(&mut self)
        ensures
            *final(self) == (FlowProfile { graph_tasks_executed: wadd(old(self).graph_tasks_executed, 1), ..*old(self) }),
    {
        self.graph_tasks_executed = add_wrapping(self.graph_tasks_executed, 1);
    }

    pub fn record_graph_pending_decrements(&mut self, count: u64)
        ensures
            *final(self) == (FlowProfile { graph_pending_decrements: wadd(old(self).graph_pending_decrements, count), ..*old(self) }),
    {
        self.graph_pending_decrements = add_wrapping(self.graph_pending_decrements, count);
    }

    pub fn record_graph_ready_successors(&mut self, count: u64)
        ensures
            *final(self) == (FlowProfile { graph_ready_successors: wadd(old(self).graph_ready_successors, count), ..*old(self) }),
    {
        self.graph_ready_successors = add_wrapping(self.graph_ready_successors, count);
    }

    pub fn record_graph_continuation(&mut self)
        ensures
            *final(self) == (FlowProfile { graph_continuations: wadd(old(self).graph_continuations, 1), ..*old(self) }),
    {
        self.graph_continuations = add_wrapping(self.graph_continuations, 1);
    }

    pub fn record_graph_local_enqueue(&mut self, count: u64)
        ensures
            *final(self) == (FlowProfile { graph_local_enqueues: wadd(old(self).graph_local_enqueues, count), ..*old(self) }),
    {
        self.graph_local_enqueues = add_wrapping(self.graph_local_enqueues, count);
    }

    pub fn record_graph_global_enqueue(&mut self, count: u64)
        ensures
            *final(self) == (FlowProfile { graph_global_enqueues: wadd(old(self).graph_global_enqueues, count), ..*old(self) }),
    {
        self.graph_global_enqueues = add_wrapping(self.graph_global_enqueues, count);
    }

    /// The counters as one line of text.
    pub fn to_display_string(&self) -> (s: String)
        ensures
            s@ == spec_flow_profile_text(*self),
    {
        let mut s = String::new();
        push_str(&mut s, "snapshot(hit=");
        push_decimal(&mut s, self.snapshot_cache_hits);
        push_str(&mut s, ", miss=");
        push_decimal(&mut s, self.snapshot_cache_misses);
        push_str(&mut s, ", total_ns=");
        push_decimal(&mut s, self.snapshot_total_ns);
        push_str(&mut s, ", build_ns=");
        push_decimal(&mut s, self.snapshot_build_ns);
        push_str(&mut s, ", nodes=");
        push_decimal(&mut s, self.snapshot_nodes);
        push_str(&mut s, ", edges=");
        push_decimal(&mut s, self.snapshot_edges);
        push_str(&mut s, ", roots=");
        push_decimal(&mut s, self.snapshot_roots);
        push_str(&mut s, ") run(total_ns=");
        push_decimal(&mut s, self.run_total_ns);
        push_str(&mut s, ") graph(roots=");
        push_decimal(&mut s, self.graph_root_tasks);
        push_str(&mut s, ", tasks=");
        push_decimal(&mut s, self.graph_tasks_executed);
        push_str(&mut s, ", pending_dec=");
        push_decimal(&mut s, self.graph_pending_decrements);
        push_str(&mut s, ", ready=");
        push_decimal(&mut s, self.graph_ready_successors);
        push_str(&mut s, ", continuations=");
        push_decimal(&mut s, self.graph_continuations);
        push_str(&mut s, ", local_enq=");
        push_decimal(&mut s, self.graph_local_enqueues);
        push_str(&mut s, ", global_enq=");
        push_decimal(&mut s, self.graph_global_enqueues);
        push_str(&mut s, ")");
        proof {
            assert(s@ =~= spec_flow_profile_text(*self));
        }
        s
    }
}

/// `snapshot(hit=.., miss=.., total_ns=.., build_ns=.., nodes=.., edges=.., roots=..)
/// run(total_ns=..) graph(roots=.., tasks=.., pending_dec=.., ready=..,
/// continuations=.., local_enq=.., global_enq=..)`.
pub open spec fn spec_flow_profile_text(p: FlowProfile) -> Seq<char> {
    "snapshot(hit="@ + dec(p.snapshot_cache_hits) + ", miss="@ + dec(p.snapshot_cache_misses)
        + ", total_ns="@ + dec(p.snapshot_total_ns) + ", build_ns="@ + dec(p.snapshot_build_ns)
        + ", nodes="@ + dec(p.snapshot_nodes) + ", edges="@ + dec(p.snapshot_edges) + ", roots="@
        + dec(p.snapshot_roots) + ") run(total_ns="@ + dec(p.run_total_ns) + ") graph(roots="@
        + dec(p.graph_root_tasks) + ", tasks="@ + dec(p.graph_tasks_executed) + ", pending_dec="@
        + dec(p.graph_pending_decrements) + ", ready="@ + dec(p.graph_ready_successors)
        + ", continuations="@ + dec(p.graph_continuations) + ", local_enq="@ + dec(
        p.graph_local_enqueues,
    ) + ", global_enq="@ + dec(p.graph_global_enqueues) + ")"@
}

} // verus!
