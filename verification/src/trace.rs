use vstd::prelude::*;
use crate::graph::TaskId;
use crate::text::{has_infix, lemma_infix_grows, opt_view, push_char, push_decimal, push_str, spec_decimal, str_chars, str_to_string};

verus! {

/// Hooks an executor calls as it runs: once when its workers start, around
/// every task, and when a worker goes to sleep or wakes.  Every hook does
/// nothing unless an implementation says otherwise.
pub trait Observer {
    fn set_up(&mut self, num_workers: usize) {
    }

    fn task_started(&mut self, worker_id: usize, task_id: TaskId, task_name: Option<&str>) {
    }

    fn task_finished(&mut self, worker_id: usize, task_id: TaskId, task_name: Option<&str>) {
    }

    fn worker_sleep(&mut self, worker_id: usize) {
    }

    fn worker_wake(&mut self, worker_id: usize) {
    }
}

/// A finished task execution on one worker, in microseconds since the trace origin.
pub struct TraceSpan {
    pub task_id: TaskId,
    pub task_name: Option<String>,
    pub start_micros: u64,
    pub duration_micros: u64,
}

/// A task execution that started and has not finished yet.
pub struct ActiveSpan {
    pub task_id: TaskId,
    pub task_name: Option<String>,
    pub started_nanos: u64,
}

/// What one worker recorded.
pub struct WorkerTrace {
    pub spans: Vec<TraceSpan>,
    pub active: Vec<ActiveSpan>,
}

/// Records the task executions of every worker and exports them as a Chrome
/// trace (`chrome://tracing` JSON).  Times are nanoseconds of a monotonic clock,
/// passed in by the caller.
pub struct TraceObserver {
    origin_nanos: u64,
    workers: Vec<WorkerTrace>,
}

/// Whole microseconds from `start` to `end`, zero if `end` is earlier.
pub open spec fn micros_between(start: u64, end: u64) -> u64 {
    if end >= start { ((end - start) / 1000) as u64 } else { 0 }
}

/// The number of spans the first `k` workers recorded.
pub open spec fn span_count(workers: Seq<WorkerTrace>, k: int) -> nat
    decreases k,
{
    if k <= 0 {
        0
    } else {
        span_count(workers, k - 1) + workers[k - 1].spans@.len()
    }
}

fn empty_worker() -> (w: WorkerTrace)
    ensures
        w.spans@.len() == 0,
        w.active@.len() == 0,
{
    WorkerTrace { spans: Vec::new(), active: Vec::new() }
}

fn copy_name(name: &Option<String>) -> (r: Option<String>)
    ensures
        opt_view(r) == opt_view(*name),
{
    match name {
        Some(n) => Some(n.clone()),
        None => None,
    }
}

impl TraceObserver {
    pub closed spec fn spec_origin(&self) -> u64 {
        self.origin_nanos
    }

    pub closed spec fn spec_workers(&self) -> Seq<WorkerTrace> {
        self.workers@
    }

    /// An empty trace whose origin is `now_nanos`.
    pub fn new(now_nanos: u64) -> (r: Self)
        ensures
            r.spec_origin() == now_nanos,
            r.spec_workers().len() == 0,
    {
        TraceObserver { origin_nanos: now_nanos, workers: Vec::new() }
    }

    /// Starts over for an executor of `num_workers` workers.
    pub fn set_up(&mut self, num_workers: usize, now_nanos: u64)
        ensures
            final(self).spec_origin() == now_nanos,
            final(self).spec_workers().len() == num_workers,
            forall|w: int| 0 <= w < num_workers ==> (#[trigger] final(self).spec_workers()[w]).spans@.len() == 0 && final(self).spec_workers()[w].active@.len() == 0,
    {
        let mut workers: Vec<WorkerTrace> = Vec::new();
        let mut i: usize = 0;
        while i < num_workers
            invariant
                i <= num_workers,
                workers@.len() == i,
                forall|w: int| 0 <= w < i ==> (#[trigger] workers@[w]).spans@.len() == 0 && workers@[w].active@.len() == 0,
            decreases num_workers - i,
        {
            workers.push(empty_worker());
            i = i + 1;
        }
        self.origin_nanos = now_nanos;
        self.workers = workers;
    }

    /// Forgets every span and moves the origin to `now_nanos`.
    pub fn clear(&mut self, now_nanos: u64)
        ensures
            final(self).spec_origin() == now_nanos,
            final(self).spec_workers().len() == old(self).spec_workers().len(),
            forall|w: int| 0 <= w < final(self).spec_workers().len() ==> (#[trigger] final(self).spec_workers()[w]).spans@.len() == 0 && final(self).spec_workers()[w].active@.len() == 0,
    {
        let n = self.workers.len();
        let mut i: usize = 0;
        while i < n
            invariant
                i <= n,
                self.workers@.len() == n,
                forall|w: int| 0 <= w < i ==> (#[trigger] self.workers@[w]).spans@.len() == 0 && self.workers@[w].active@.len() == 0,
            decreases n - i,
        {
            self.workers.set(i, empty_worker());
            i = i + 1;
        }
        self.origin_nanos = now_nanos;
    }

    fn ensure_worker(&mut self, worker_id: usize)
        requires
            worker_id < usize::MAX,
        ensures
            final(self).spec_origin() == old(self).spec_origin(),
            final(self).spec_workers().len() == if worker_id < old(self).spec_workers().len() { old(self).spec_workers().len() } else { (worker_id + 1) as nat },
            forall|w: int| 0 <= w < old(self).spec_workers().len() ==> #[trigger] final(self).spec_workers()[w] == old(self).spec_workers()[w],
            forall|w: int| old(self).spec_workers().len() <= w < final(self).spec_workers().len() ==> (#[trigger] final(self).spec_workers()[w]).spans@.len() == 0 && final(self).spec_workers()[w].active@.len() == 0,
    {
        let ghost old_workers = self.workers@;
        while self.workers.len() <= worker_id
            invariant
                worker_id < usize::MAX,
                old_workers.len() <= self.workers@.len(),
                self.workers@.len() <= (if worker_id < old_workers.len() { old_workers.len() } else { (worker_id + 1) as nat }),
                self.origin_nanos == old(self).origin_nanos,
                forall|w: int| 0 <= w < old_workers.len() ==> #[trigger] self.workers@[w] == old_workers[w],
                forall|w: int| old_workers.len() <= w < self.workers@.len() ==> (#[trigger] self.workers@[w]).spans@.len() == 0 && self.workers@[w].active@.len() == 0,
            decreases worker_id + 1 - self.workers@.len(),
        {
            self.workers.push(empty_worker());
        }
    }

    fn take_worker(&mut self, worker_id: usize) -> (w: WorkerTrace)
        requires
            worker_id < old(self).workers@.len(),
        ensures
            w == old(self).workers@[worker_id as int],
            final(self).origin_nanos == old(self).origin_nanos,
            final(self).workers@.len() == old(self).workers@.len(),
            forall|k: int| 0 <= k < old(self).workers@.len() && k != worker_id ==> #[trigger] final(self).workers@[k] == old(self).workers@[k],
    {
        let mut tmp = empty_worker();
        self.workers.set_and_swap(worker_id, &mut tmp);
        tmp
    }

    /// A task started on a worker at `now_nanos`.
    pub fn task_started(&mut self, worker_id: usize, task_id: TaskId, task_name: Option<&str>, now_nanos: u64)
        requires
            worker_id < usize::MAX,
        ensures
            final(self).spec_origin() == old(self).spec_origin(),
            final(self).spec_workers().len() == if worker_id < old(self).spec_workers().len() { old(self).spec_workers().len() } else { (worker_id + 1) as nat },
            forall|w: int| 0 <= w < final(self).spec_workers().len() && w != worker_id ==> (#[trigger] final(self).spec_workers()[w]) == (if w < old(self).spec_workers().len() { old(self).spec_workers()[w] } else { final(self).spec_workers()[w] }),
            final(self).spec_workers()[worker_id as int].spans@ == (if worker_id < old(self).spec_workers().len() { old(self).spec_workers()[worker_id as int].spans@ } else { Seq::empty() }),
            final(self).spec_workers()[worker_id as int].active@.len() == 1 + (if worker_id < old(self).spec_workers().len() { old(self).spec_workers()[worker_id as int].active@.len() } else { 0 }),
            ({
                let a = final(self).spec_workers()[worker_id as int].active@;
                &&& a.last().task_id == task_id
                &&& a.last().started_nanos == now_nanos
                &&& opt_view(a.last().task_name) == match task_name { Some(n) => Some(n@), None => None::<Seq<char>> }
                &&& worker_id < old(self).spec_workers().len() ==> a.drop_last() == old(self).spec_workers()[worker_id as int].active@
            }),
    {
        self.ensure_worker(worker_id);
        let mut w = self.take_worker(worker_id);
        let name = match task_name {
            Some(n) => Some(str_to_string(n)),
            None => None,
        };
        let ghost before = w.active@;
        w.active.push(ActiveSpan { task_id, task_name: name, started_nanos: now_nanos });
        proof {
            assert(w.active@.drop_last() =~= before);
        }
        self.workers.set(worker_id, w);
    }

    /// A task finished on a worker at `now_nanos`: the worker's latest started
    /// task becomes a span (named after the started task, or else the given name).
    /// Nothing happens when no task is active on the worker.
    pub fn task_finished(&mut self, worker_id: usize, task_id: TaskId, task_name: Option<&str>, now_nanos: u64)
        requires
            worker_id < usize::MAX,
        ensures
            final(self).spec_origin() == old(self).spec_origin(),
            final(self).spec_workers().len() == if worker_id < old(self).spec_workers().len() { old(self).spec_workers().len() } else { (worker_id + 1) as nat },
            forall|w: int| 0 <= w < final(self).spec_workers().len() && w != worker_id ==> (#[trigger] final(self).spec_workers()[w]) == (if w < old(self).spec_workers().len() { old(self).spec_workers()[w] } else { final(self).spec_workers()[w] }),
            ({
                let was_active = worker_id < old(self).spec_workers().len() && old(self).spec_workers()[worker_id as int].active@.len() > 0;
                let fw = final(self).spec_workers()[worker_id as int];
                if !was_active {
                    &&& fw.active@.len() == 0
                    &&& fw.spans@ == (if worker_id < old(self).spec_workers().len() { old(self).spec_workers()[worker_id as int].spans@ } else { Seq::empty() })
                } else {
                    let ow = old(self).spec_workers()[worker_id as int];
                    let act = ow.active@.last();
                    &&& fw.active@ == ow.active@.drop_last()
                    &&& fw.spans@.drop_last() == ow.spans@
                    &&& fw.spans@.len() == ow.spans@.len() + 1
                    &&& fw.spans@.last().task_id == act.task_id
                    &&& fw.spans@.last().start_micros == micros_between(old(self).spec_origin(), act.started_nanos)
                    &&& fw.spans@.last().duration_micros == micros_between(act.started_nanos, now_nanos)
                    &&& opt_view(fw.spans@.last().task_name) == (match act.task_name {
                        Some(n) => Some(n@),
                        None => match task_name { Some(n) => Some(n@), None => None::<Seq<char>> },
                    })
                }
            }),
    {
        self.ensure_worker(worker_id);
        let mut w = self.take_worker(worker_id);
        let ghost ow = w;
        match w.active.pop() {
            None => {
                self.workers.set(worker_id, w);
            },
            Some(active) => {
                let start_micros = if active.started_nanos >= self.origin_nanos { (active.started_nanos - self.origin_nanos) / 1000 } else { 0 };
                let duration_micros = if now_nanos >= active.started_nanos { (now_nanos - active.started_nanos) / 1000 } else { 0 };
                let name = match active.task_name {
                    Some(n) => Some(n),
                    None => match task_name {
                        Some(n) => Some(str_to_string(n)),
                        None => None,
                    },
                };
                let ghost spans_before = w.spans@;
                w.spans.push(TraceSpan { task_id: active.task_id, task_name: name, start_micros, duration_micros });
                proof {
                    assert(w.spans@.drop_last() =~= spans_before);
                }
                self.workers.set(worker_id, w);
            },
        }
    }

    /// The number of spans recorded.
    pub fn num_tasks(&self) -> (r: usize)
        requires
            span_count(self.spec_workers(), self.spec_workers().len() as int) <= usize::MAX,
        ensures
            r == span_count(self.spec_workers(), self.spec_workers().len() as int),
    {
        let mut total: usize = 0;
        let mut i: usize = 0;
        while i < self.workers.len()
            invariant
                i <= self.workers@.len(),
                span_count(self.workers@, self.workers@.len() as int) <= usize::MAX,
                total == span_count(self.workers@, i as int),
            decreases self.workers@.len() - i,
        {
            proof {
                lemma_span_count_mono(self.workers@, i + 1, self.workers@.len() as int);
            }
            total = total + self.workers[i].spans.len();
            i = i + 1;
        }
        total
    }

    /// The spans as a Chrome trace: a JSON array with one complete event per span,
    /// worker by worker.
    pub fn dump(&self) -> (s: String)
        ensures
            s@ == spec_dump_trace(self.spec_workers()),
    {
        let mut out = String::new();
        push_char(&mut out, '[');
        let mut first = true;
        let mut w: usize = 0;
        while w < self.workers.len()
            invariant
                w <= self.workers@.len(),
                first == (trace_entries(self.workers@, w as int).len() == 0),
                out@ == seq!['['] + join_entries(trace_entries(self.workers@, w as int)),
            decreases self.workers@.len() - w,
        {
            let worker = &self.workers[w];
            let ghost before = trace_entries(self.workers@, w as int);
            let mut k: usize = 0;
            while k < worker.spans.len()
                invariant
                    k <= worker.spans@.len(),
                    w < self.workers@.len(),
                    *worker == self.workers@[w as int],
                    first == ((before + worker_entries(w as int, worker.spans@, k as int)).len() == 0),
                    out@ == seq!['['] + join_entries(before + worker_entries(w as int, worker.spans@, k as int)),
                decreases worker.spans@.len() - k,
            {
                let ghost prev = before + worker_entries(w as int, worker.spans@, k as int);
                if !first {
                    push_char(&mut out, ',');
                }
                first = false;
                push_span_json(&mut out, w, &worker.spans[k]);
                proof {
                    let next = before + worker_entries(w as int, worker.spans@, k + 1);
                    assert(next =~= prev.push(spec_span_json(w as int, worker.spans@[k as int])));
                    lemma_join_push(prev, spec_span_json(w as int, worker.spans@[k as int]));
                    assert(out@ =~= seq!['['] + join_entries(next));
                }
                k = k + 1;
            }
            proof {
                assert(trace_entries(self.workers@, w + 1) =~= before + worker_entries(w as int, worker.spans@, worker.spans@.len() as int));
            }
            w = w + 1;
        }
        push_char(&mut out, ']');
        proof {
            assert(out@ =~= spec_dump_trace(self.workers@));
        }
        out
    }
}

pub proof fn lemma_span_count_mono(workers: Seq<WorkerTrace>, a: int, b: int)
    requires
        0 <= a <= b <= workers.len(),
    ensures
        span_count(workers, a) <= span_count(workers, b),
    decreases b - a,
{
    if a < b {
        lemma_span_count_mono(workers, a, b - 1);
    }
}

/// How one character of a JSON string is written: quote, backslash and the
/// usual whitespace escapes, other control characters as `\u00xx`.
pub open spec fn spec_escape_json_char(c: char) -> Seq<char> {
    if c == '"' {
        seq!['\\', '"']
    } else if c == '\\' {
        seq!['\\', '\\']
    } else if c == '\n' {
        seq!['\\', 'n']
    } else if c == '\r' {
        seq!['\\', 'r']
    } else if c == '\t' {
        seq!['\\', 't']
    } else if is_control(c) {
        seq!['\\', 'u'] + spec_hex4(c as u32)
    } else {
        seq![c]
    }
}

/// Unicode control characters (general category Cc).
pub open spec fn is_control(c: char) -> bool {
    (c as u32) <= 0x1f || (0x7f <= (c as u32) && (c as u32) <= 0x9f)
}

pub open spec fn spec_hex_digit(d: nat) -> char {
    if d < 10 {
        crate::text::spec_digit(d)
    } else if d == 10 {
        'a'
    } else if d == 11 {
        'b'
    } else if d == 12 {
        'c'
    } else if d == 13 {
        'd'
    } else if d == 14 {
        'e'
    } else {
        'f'
    }
}

/// Four lowercase hexadecimal digits of a value below 0x10000.
pub open spec fn spec_hex4(v: u32) -> Seq<char> {
    seq![
        spec_hex_digit(((v / 4096) % 16) as nat),
        spec_hex_digit(((v / 256) % 16) as nat),
        spec_hex_digit(((v / 16) % 16) as nat),
        spec_hex_digit((v % 16) as nat),
    ]
}

pub open spec fn spec_escape_json(s: Seq<char>) -> Seq<char>
    decreases s.len(),
{
    if s.len() == 0 {
        Seq::empty()
    } else {
        spec_escape_json(s.drop_last()) + spec_escape_json_char(s.last())
    }
}

fn hex_digit(d: u32) -> (c: char)
    requires
        d < 16,
    ensures
        c == spec_hex_digit(d as nat),
{
    if d == 0 { '0' }
    else if d == 1 { '1' }
    else if d == 2 { '2' }
    else if d == 3 { '3' }
    else if d == 4 { '4' }
    else if d == 5 { '5' }
    else if d == 6 { '6' }
    else if d == 7 { '7' }
    else if d == 8 { '8' }
    else if d == 9 { '9' }
    else if d == 10 { 'a' }
    else if d == 11 { 'b' }
    else if d == 12 { 'c' }
    else if d == 13 { 'd' }
    else if d == 14 { 'e' }
    else { 'f' }
}

fn push_escaped_json_char(out: &mut String, c: char)
    ensures
        final(out)@ == old(out)@ + spec_escape_json_char(c),
{
    let code = c as u32;
    if c == '"' {
        push_char(out, '\\');
        push_char(out, '"');
    } else if c == '\\' {
        push_char(out, '\\');
        push_char(out, '\\');
    } else if c == '\n' {
        push_char(out, '\\');
        push_char(out, 'n');
    } else if c == '\r' {
        push_char(out, '\\');
        push_char(out, 'r');
    } else if c == '\t' {
        push_char(out, '\\');
        push_char(out, 't');
    } else if code <= 0x1f || (0x7f <= code && code <= 0x9f) {
        push_char(out, '\\');
        push_char(out, 'u');
        push_char(out, hex_digit((code / 4096) % 16));
        push_char(out, hex_digit((code / 256) % 16));
        push_char(out, hex_digit((code / 16) % 16));
        push_char(out, hex_digit(code % 16));
    } else {
        push_char(out, c);
    }
    proof {
        assert(final(out)@ =~= old(out)@ + spec_escape_json_char(c));
    }
}

/// Escapes a string for a JSON string literal.
pub fn escape_json(input: &str) -> (r: String)
    ensures
        r@ == spec_escape_json(input@),
{
    let chars = str_chars(input);
    let mut out = String::new();
    let mut i: usize = 0;
    while i < chars.len()
        invariant
            i <= chars@.len(),
            chars@ == input@,
            out@ == spec_escape_json(chars@.subrange(0, i as int)),
        decreases chars@.len() - i,
    {
        push_escaped_json_char(&mut out, chars[i]);
        proof {
            let t = chars@.subrange(0, i + 1);
            assert(t.drop_last() =~= chars@.subrange(0, i as int));
        }
        i = i + 1;
    }
    proof {
        assert(chars@.subrange(0, chars@.len() as int) =~= chars@);
    }
    out
}

/// The name a span is shown under: its task's name, or `task-<id>`.
pub open spec fn spec_trace_task_name(span: TraceSpan) -> Seq<char> {
    match span.task_name {
        Some(n) => n@,
        None => "task-"@ + spec_decimal(span.task_id.0 as nat),
    }
}

pub fn trace_task_name(span: &TraceSpan) -> (r: String)
    ensures
        r@ == spec_trace_task_name(*span),
{
    match &span.task_name {
        Some(n) => n.clone(),
        None => {
            let mut s = String::new();
            push_str(&mut s, "task-");
            push_decimal(&mut s, span.task_id.0 as u64);
            proof {
                assert(s@ =~= spec_trace_task_name(*span));
            }
            s
        },
    }
}

/// One complete ("X") event of the Chrome trace format.
pub open spec fn spec_span_json(worker_id: int, span: TraceSpan) -> Seq<char> {
    "{\"cat\":\"TraceObserver\",\"name\":\""@ + spec_escape_json(spec_trace_task_name(span))
        + "\",\"ph\":\"X\",\"pid\":1,\"tid\":"@ + spec_decimal(worker_id as nat) + ",\"ts\":"@
        + spec_decimal(span.start_micros as nat) + ",\"dur\":"@ + spec_decimal(
        span.duration_micros as nat,
    ) + ",\"args\":{\"task_id\":"@ + spec_decimal(span.task_id.0 as nat) + "}}"@
}

pub open spec fn worker_entries(worker_id: int, spans: Seq<TraceSpan>, k: int) -> Seq<Seq<char>>
    decreases k,
{
    if k <= 0 {
        Seq::empty()
    } else {
        worker_entries(worker_id, spans, k - 1).push(spec_span_json(worker_id, spans[k - 1]))
    }
}

pub open spec fn trace_entries(workers: Seq<WorkerTrace>, w: int) -> Seq<Seq<char>>
    decreases w,
{
    if w <= 0 {
        Seq::empty()
    } else {
        trace_entries(workers, w - 1) + worker_entries(w - 1, workers[w - 1].spans@, workers[w - 1].spans@.len() as int)
    }
}

/// Entries separated by commas.
pub open spec fn join_entries(entries: Seq<Seq<char>>) -> Seq<char>
    decreases entries.len(),
{
    if entries.len() == 0 {
        Seq::empty()
    } else if entries.len() == 1 {
        entries[0]
    } else {
        join_entries(entries.drop_last()) + seq![','] + entries.last()
    }
}

proof fn lemma_join_push(entries: Seq<Seq<char>>, e: Seq<char>)
    ensures
        join_entries(entries.push(e)) == if entries.len() == 0 { e } else { join_entries(entries) + seq![','] + e },
{
    assert(entries.push(e).drop_last() =~= entries);
}

/// `[` + the events of every span, worker by worker, comma-separated + `]`.
pub open spec fn spec_dump_trace(workers: Seq<WorkerTrace>) -> Seq<char> {
    seq!['['] + join_entries(trace_entries(workers, workers.len() as int)) + seq![']']
}

proof fn lemma_worker_entries(w: int, spans: Seq<TraceSpan>, k: int)
    requires
        0 <= k <= spans.len(),
    ensures
        worker_entries(w, spans, k).len() == k,
        forall|j: int| 0 <= j < k ==> #[trigger] worker_entries(w, spans, k)[j] == spec_span_json(w, spans[j]),
    decreases k,
{
    if k > 0 {
        lemma_worker_entries(w, spans, k - 1);
    }
}

proof fn lemma_trace_entries(workers: Seq<WorkerTrace>, m: int)
    requires
        0 <= m <= workers.len(),
    ensures
        trace_entries(workers, m).len() == span_count(workers, m),
        forall|w: int, k: int| 0 <= w < m && 0 <= k < workers[w].spans@.len()
            ==> #[trigger] trace_entries(workers, m)[span_count(workers, w) + k] == spec_span_json(w, #[trigger] workers[w].spans@[k]),
    decreases m,
{
    if m > 0 {
        lemma_trace_entries(workers, m - 1);
        let spans = workers[m - 1].spans@;
        lemma_worker_entries(m - 1, spans, spans.len() as int);
        let before = trace_entries(workers, m - 1);
        let mine = worker_entries(m - 1, spans, spans.len() as int);
        assert(trace_entries(workers, m) == before + mine);
        assert forall|w: int, k: int| 0 <= w < m && 0 <= k < workers[w].spans@.len()
            implies #[trigger] trace_entries(workers, m)[span_count(workers, w) + k] == spec_span_json(w, #[trigger] workers[w].spans@[k]) by {
            if w < m - 1 {
                lemma_span_count_mono(workers, w + 1, m - 1);
                assert(span_count(workers, w + 1) == span_count(workers, w) + workers[w].spans@.len());
                assert(trace_entries(workers, m)[span_count(workers, w) + k] == before[span_count(workers, w) + k]);
            } else {
                assert(trace_entries(workers, m)[span_count(workers, w) + k] == mine[k]);
            }
        }
    }
}

proof fn lemma_join_contains(entries: Seq<Seq<char>>, j: int)
    requires
        0 <= j < entries.len(),
    ensures
        has_infix(join_entries(entries), entries[j]),
    decreases entries.len(),
{
    let e = entries[j];
    if entries.len() == 1 {
        lemma_infix_grows(e, Seq::empty(), e);
    } else {
        let front = join_entries(entries.drop_last()) + seq![','];
        assert(join_entries(entries) == front + entries.last());
        if j == entries.len() - 1 {
            lemma_infix_grows(front, e, e);
        } else {
            lemma_join_contains(entries.drop_last(), j);
            assert(entries.drop_last()[j] == e);
            lemma_infix_grows(join_entries(entries.drop_last()), seq![','], e);
            lemma_infix_grows(front, entries.last(), e);
        }
    }
}

/// Law: the dumped trace is a JSON array of exactly as many events as spans
/// were recorded (`num_tasks`), every span of every worker appearing once,
/// worker by worker in recording order, as an event of that worker (its
/// `tid`); in particular the text holds every span's event.
pub proof fn lemma_dump_has_every_span(workers: Seq<WorkerTrace>)
    ensures
        exists|events: Seq<Seq<char>>| {
            &&& spec_dump_trace(workers) == seq!['['] + join_entries(events) + seq![']']
            &&& events.len() == span_count(workers, workers.len() as int)
            &&& forall|w: int, k: int| 0 <= w < workers.len() && 0 <= k < workers[w].spans@.len()
                ==> #[trigger] events[span_count(workers, w) + k] == spec_span_json(w, #[trigger] workers[w].spans@[k])
        },
        forall|w: int, k: int| 0 <= w < workers.len() && 0 <= k < workers[w].spans@.len()
            ==> has_infix(spec_dump_trace(workers), spec_span_json(w, #[trigger] workers[w].spans@[k])),
{
    let n = workers.len() as int;
    let events = trace_entries(workers, n);
    lemma_trace_entries(workers, n);
    assert forall|w: int, k: int| 0 <= w < workers.len() && 0 <= k < workers[w].spans@.len()
        implies has_infix(spec_dump_trace(workers), spec_span_json(w, #[trigger] workers[w].spans@[k])) by {
        let j = span_count(workers, w) + k;
        lemma_span_count_mono(workers, w + 1, n);
        assert(events[j] == spec_span_json(w, workers[w].spans@[k]));
        lemma_join_contains(events, j);
        lemma_infix_grows(seq!['['], join_entries(events), events[j]);
        lemma_infix_grows(seq!['['] + join_entries(events), seq![']'], events[j]);
    }
}

/// Law: the event of a span recorded on worker `w` is a complete ("X")
/// event whose `tid` is `w` and which carries the span's start, duration
/// and task id.
pub proof fn lemma_span_event_fields(w: int, span: TraceSpan)
    requires
        0 <= w,
    ensures
        has_infix(spec_span_json(w, span), "\"ph\":\"X\""@),
        has_infix(spec_span_json(w, span), "\"tid\":"@ + spec_decimal(w as nat) + ","@),
        has_infix(spec_span_json(w, span), "\"ts\":"@ + spec_decimal(span.start_micros as nat) + ","@),
        has_infix(spec_span_json(w, span), "\"dur\":"@ + spec_decimal(span.duration_micros as nat) + ","@),
        has_infix(spec_span_json(w, span), "\"task_id\":"@ + spec_decimal(span.task_id.0 as nat) + "}"@),
{
    reveal_strlit("{\"cat\":\"TraceObserver\",\"name\":\"");
    reveal_strlit("\",\"ph\":\"X\",\"pid\":1,\"tid\":");
    reveal_strlit(",\"ts\":");
    reveal_strlit(",\"dur\":");
    reveal_strlit(",\"args\":{\"task_id\":");
    reveal_strlit("}}");
    reveal_strlit("\"ph\":\"X\"");
    reveal_strlit("\"tid\":");
    reveal_strlit(",");
    reveal_strlit("\"ts\":");
    reveal_strlit("\"dur\":");
    reveal_strlit("\"task_id\":");
    reveal_strlit("}");
    reveal_strlit("\",");
    reveal_strlit(",\"pid\":1,");
    reveal_strlit("\"args\":{");
    let e = spec_span_json(w, span);
    let name = spec_escape_json(spec_trace_task_name(span));
    let dw = spec_decimal(w as nat);
    let ds = spec_decimal(span.start_micros as nat);
    let dd = spec_decimal(span.duration_micros as nat);
    let dt = spec_decimal(span.task_id.0 as nat);
    let a = "{\"cat\":\"TraceObserver\",\"name\":\""@ + name + "\","@;
    let ph = "\"ph\":\"X\""@;
    let b = ",\"pid\":1,"@;
    let tid = "\"tid\":"@ + dw + ","@;
    let ts = "\"ts\":"@ + ds + ","@;
    let dur = "\"dur\":"@ + dd + ","@;
    let c = "\"args\":{"@;
    let tk = "\"task_id\":"@ + dt + "}"@;
    let z = "}"@;
    assert(e =~= a + ph + b + tid + ts + dur + c + tk + z);
    lemma_infix_grows(a, ph, ph);
    assert(e =~= (a + ph) + (b + tid + ts + dur + c + tk + z));
    lemma_infix_grows(a + ph, b + tid + ts + dur + c + tk + z, ph);
    assert(e =~= (a + ph + b) + tid + (ts + dur + c + tk + z));
    lemma_infix_grows(a + ph + b, tid, tid);
    lemma_infix_grows(a + ph + b + tid, ts + dur + c + tk + z, tid);
    assert(e =~= (a + ph + b + tid) + ts + (dur + c + tk + z));
    lemma_infix_grows(a + ph + b + tid, ts, ts);
    lemma_infix_grows(a + ph + b + tid + ts, dur + c + tk + z, ts);
    assert(e =~= (a + ph + b + tid + ts) + dur + (c + tk + z));
    lemma_infix_grows(a + ph + b + tid + ts, dur, dur);
    lemma_infix_grows(a + ph + b + tid + ts + dur, c + tk + z, dur);
    assert(e =~= (a + ph + b + tid + ts + dur + c) + tk + z);
    lemma_infix_grows(a + ph + b + tid + ts + dur + c, tk, tk);
    lemma_infix_grows(a + ph + b + tid + ts + dur + c + tk, z, tk);
}

fn push_span_json(out: &mut String, worker_id: usize, span: &TraceSpan)
    ensures
        final(out)@ == old(out)@ + spec_span_json(worker_id as int, *span),
{
    push_str(out, "{\"cat\":\"TraceObserver\",\"name\":\"");
    let name = trace_task_name(span);
    let escaped = escape_json(name.as_str());
    push_str(out, escaped.as_str());
    push_str(out, "\",\"ph\":\"X\",\"pid\":1,\"tid\":");
    push_decimal(out, worker_id as u64);
    push_str(out, ",\"ts\":");
    push_decimal(out, span.start_micros);
    push_str(out, ",\"dur\":");
    push_decimal(out, span.duration_micros);
    push_str(out, ",\"args\":{\"task_id\":");
    push_decimal(out, span.task_id.0 as u64);
    push_str(out, "}}");
    proof {
        assert(final(out)@ =~= old(out)@ + spec_span_json(worker_id as int, *span));
    }
}

} // verus!
