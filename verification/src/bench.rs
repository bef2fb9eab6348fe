use vstd::prelude::*;
use std::ops::Range;
use vstd::wrapping::u64_specs::{wrapping_add, wrapping_mul};
use vstd::multiset::Multiset;

verus! {

/// The value the find scenario searches for.
pub const FIND_NEEDLE: u64 = 0x9e37_79b9_7f4a_7c15;
/// What a needle-valued element is replaced by before the needle is planted.
pub const NEEDLE_SCRAMBLE: u64 = 0xa076_1d64_78bd_642f;
pub const CHECKSUM_OFFSET: u64 = 1_469_598_103_934_665_603;
pub const CHECKSUM_PRIME: u64 = 1_099_511_628_211;
pub const LCG_MULTIPLIER: u64 = 6_364_136_223_846_793_005;
pub const LCG_INCREMENT: u64 = 1_442_695_040_888_963_407;
pub const TRANSFORM_ADDEND: u64 = 0x9e37_79b9;

/// A backend the benchmark can run on.
#[derive(Clone, Copy, Debug, PartialEq, Eq, Hash, Structural)]
pub enum BackendId {
    Flow,
    ThreadPool,
    Rayon,
    CppTaskflow,
}

impl BackendId {
    /// Every backend, in report order.
    pub fn all() -> (r: Vec<BackendId>)
        ensures
            r@ == seq![BackendId::Flow, BackendId::ThreadPool, BackendId::Rayon, BackendId::CppTaskflow],
    {
        let mut v: Vec<BackendId> = Vec::new();
        v.push(BackendId::Flow);
        v.push(BackendId::ThreadPool);
        v.push(BackendId::Rayon);
        v.push(BackendId::CppTaskflow);
        v
    }

    pub open spec fn spec_name(self) -> Seq<char> {
        match self {
            BackendId::Flow => "flow"@,
            BackendId::ThreadPool => "threadpool"@,
            BackendId::Rayon => "rayon"@,
            BackendId::CppTaskflow => "cpp-taskflow"@,
        }
    }

    /// The backend's name on the command line and in reports.
    pub fn as_str(self) -> (r: &'static str)
        ensures
            r@ == self.spec_name(),
    {
        match self {
            BackendId::Flow => "flow",
            BackendId::ThreadPool => "threadpool",
            BackendId::Rayon => "rayon",
            BackendId::CppTaskflow => "cpp-taskflow",
        }
    }
}

/// A benchmark scenario.
#[derive(Clone, Copy, Debug, PartialEq, Eq, Hash, Structural)]
pub enum ScenarioId {
    Transform,
    Reduce,
    Find,
    InclusiveScan,
    Sort,
}

impl ScenarioId {
    /// Every scenario, in report order.
    pub fn all() -> (r: Vec<ScenarioId>)
        ensures
            r@ == seq![ScenarioId::Transform, ScenarioId::Reduce, ScenarioId::Find, ScenarioId::InclusiveScan, ScenarioId::Sort],
    {
        let mut v: Vec<ScenarioId> = Vec::new();
        v.push(ScenarioId::Transform);
        v.push(ScenarioId::Reduce);
        v.push(ScenarioId::Find);
        v.push(ScenarioId::InclusiveScan);
        v.push(ScenarioId::Sort);
        v
    }

    pub open spec fn spec_name(self) -> Seq<char> {
        match self {
            ScenarioId::Transform => "transform"@,
            ScenarioId::Reduce => "reduce"@,
            ScenarioId::Find => "find"@,
            ScenarioId::InclusiveScan => "inclusive-scan"@,
            ScenarioId::Sort => "sort"@,
        }
    }

    /// The scenario's name on the command line and in reports.
    pub fn as_str(self) -> (r: &'static str)
        ensures
            r@ == self.spec_name(),
    {
        match self {
            ScenarioId::Transform => "transform",
            ScenarioId::Reduce => "reduce",
            ScenarioId::Find => "find",
            ScenarioId::InclusiveScan => "inclusive-scan",
            ScenarioId::Sort => "sort",
        }
    }
}

/// How a report is printed.
#[derive(Clone, Copy, Debug, PartialEq, Eq, Structural)]
pub enum OutputFormat {
    Json,
    Table,
}

/// What a benchmark run measures and how.
#[derive(Clone, Debug)]
pub struct BenchmarkConfig {
    pub backends: Vec<BackendId>,
    pub scenarios: Vec<ScenarioId>,
    pub input_len: usize,
    pub worker_count: usize,
    pub chunk_size: usize,
    pub warmup_iterations: usize,
    pub measure_iterations: usize,
    pub seed: u64,
}

impl BenchmarkConfig {
    /// The default configuration on `available_workers` workers (at least one).
    pub fn defaults(available_workers: usize) -> (r: Self)
        ensures
            r.backends@ == BackendId::all_spec(),
            r.scenarios@ == ScenarioId::all_spec(),
            r.input_len == 65_536,
            r.worker_count == (if available_workers > 1 { available_workers } else { 1 }),
            r.chunk_size == 1_024,
            r.warmup_iterations == 1,
            r.measure_iterations == 5,
            r.seed == 42,
    {
        BenchmarkConfig {
            backends: BackendId::all(),
            scenarios: ScenarioId::all(),
            input_len: 65_536,
            worker_count: if available_workers > 1 { available_workers } else { 1 },
            chunk_size: 1_024,
            warmup_iterations: 1,
            measure_iterations: 5,
            seed: 42,
        }
    }

    /// A small configuration for tests: 256 inputs, 4 workers, chunks of 32,
    /// no warm-up and one measured iteration.
    pub fn for_test() -> (r: Self)
        ensures
            r.backends@ == BackendId::all_spec(),
            r.scenarios@ == ScenarioId::all_spec(),
            r.input_len == 256,
            r.worker_count == 4,
            r.chunk_size == 32,
            r.warmup_iterations == 0,
            r.measure_iterations == 1,
            r.seed == 42,
    {
        Self::defaults(1)
            .with_input_len(256)
            .with_worker_count(4)
            .with_chunk_size(32)
            .with_warmup_iterations(0)
            .with_measure_iterations(1)
    }

    pub fn with_backends(self, backends: Vec<BackendId>) -> (r: Self)
        ensures
            r == (BenchmarkConfig { backends, ..self }),
    {
        BenchmarkConfig { backends, ..self }
    }

    pub fn with_scenarios(self, scenarios: Vec<ScenarioId>) -> (r: Self)
        ensures
            r == (BenchmarkConfig { scenarios, ..self }),
    {
        BenchmarkConfig { scenarios, ..self }
    }

    pub fn with_input_len(self, input_len: usize) -> (r: Self)
        ensures
            r == (BenchmarkConfig { input_len, ..self }),
    {
        BenchmarkConfig { input_len, ..self }
    }

    /// Sets the worker count, at least one.
    pub fn with_worker_count(self, worker_count: usize) -> (r: Self)
        ensures
            r == (BenchmarkConfig { worker_count: if worker_count > 1 { worker_count } else { 1 }, ..self }),
    {
        BenchmarkConfig { worker_count: if worker_count > 1 { worker_count } else { 1 }, ..self }
    }

    /// Sets the chunk size, at least one.
    pub fn with_chunk_size(self, chunk_size: usize) -> (r: Self)
        ensures
            r == (BenchmarkConfig { chunk_size: if chunk_size > 1 { chunk_size } else { 1 }, ..self }),
    {
        BenchmarkConfig { chunk_size: if chunk_size > 1 { chunk_size } else { 1 }, ..self }
    }

    pub fn with_warmup_iterations(self, warmup_iterations: usize) -> (r: Self)
        ensures
            r == (BenchmarkConfig { warmup_iterations, ..self }),
    {
        BenchmarkConfig { warmup_iterations, ..self }
    }

    /// Sets the number of measured iterations, at least one.
    pub fn with_measure_iterations(self, measure_iterations: usize) -> (r: Self)
        ensures
            r == (BenchmarkConfig { measure_iterations: if measure_iterations > 1 { measure_iterations } else { 1 }, ..self }),
    {
        BenchmarkConfig { measure_iterations: if measure_iterations > 1 { measure_iterations } else { 1 }, ..self }
    }

    pub fn with_seed(self, seed: u64) -> (r: Self)
        ensures
            r == (BenchmarkConfig { seed, ..self }),
    {
        BenchmarkConfig { seed, ..self }
    }
}

impl BackendId {
    pub open spec fn all_spec() -> Seq<BackendId> {
        seq![BackendId::Flow, BackendId::ThreadPool, BackendId::Rayon, BackendId::CppTaskflow]
    }
}

impl ScenarioId {
    pub open spec fn all_spec() -> Seq<ScenarioId> {
        seq![ScenarioId::Transform, ScenarioId::Reduce, ScenarioId::Find, ScenarioId::InclusiveScan, ScenarioId::Sort]
    }
}

/// `value` rotated left by seven bits.
pub open spec fn rotl7(value: u64) -> u64 {
    ((value << 7u64) | (value >> 57u64)) as u64
}

/// The per-element work of the transform scenario.
pub fn transform_value(value: u64) -> (r: u64)
    ensures
        r == wrapping_add(rotl7(value), TRANSFORM_ADDEND),
{
    let rotated = (value << 7u64) | (value >> 57u64);
    rotated.wrapping_add(TRANSFORM_ADDEND)
}

/// Checksum of a sequence: starting from the offset basis, multiply by the
/// prime and mix in each value with xor.
pub open spec fn spec_checksum(values: Seq<u64>) -> u64
    decreases values.len(),
{
    if values.len() == 0 {
        CHECKSUM_OFFSET
    } else {
        wrapping_mul(spec_checksum(values.drop_last()), CHECKSUM_PRIME) ^ values.last()
    }
}

pub fn checksum_slice(values: &[u64]) -> (r: u64)
    ensures
        r == spec_checksum(values@),
{
    let mut acc = CHECKSUM_OFFSET;
    let mut i: usize = 0;
    while i < values.len()
        invariant
            i <= values@.len(),
            acc == spec_checksum(values@.subrange(0, i as int)),
        decreases values@.len() - i,
    {
        proof {
            assert(values@.subrange(0, i + 1).drop_last() =~= values@.subrange(0, i as int));
        }
        acc = acc.wrapping_mul(CHECKSUM_PRIME) ^ values[i];
        i = i + 1;
    }
    proof {
        assert(values@.subrange(0, values@.len() as int) =~= values@);
    }
    acc
}

/// The state of the dataset generator after `k` steps from `seed | 1`.
pub open spec fn lcg_state(seed: u64, k: nat) -> u64
    decreases k,
{
    if k == 0 {
        seed | 1
    } else {
        wrapping_add(wrapping_mul(lcg_state(seed, (k - 1) as nat), LCG_MULTIPLIER), LCG_INCREMENT)
    }
}

/// The `i`-th generated value, before the needle is planted.
pub open spec fn raw_value(seed: u64, i: nat) -> u64 {
    let state = lcg_state(seed, i + 1);
    let value = state ^ (state >> 33u64);
    if value == FIND_NEEDLE { value ^ NEEDLE_SCRAMBLE } else { value }
}

/// Where the needle is planted: three quarters in (saturating).
pub open spec fn needle_index(len: nat) -> nat {
    (if len * 3 > usize::MAX { usize::MAX as nat } else { len * 3 }) / 4
}

/// The benchmark input: `len` pseudo-random values (none equal to the
/// needle) with the needle planted three quarters in.
pub fn dataset_values(len: usize, seed: u64) -> (r: Vec<u64>)
    ensures
        r@.len() == len,
        forall|i: int| 0 <= i < len ==> #[trigger] r@[i] == (if i == needle_index(len as nat) { FIND_NEEDLE } else { raw_value(seed, i as nat) }),
{
    let mut state = seed | 1;
    let mut values: Vec<u64> = Vec::new();
    let mut i: usize = 0;
    while i < len
        invariant
            i <= len,
            values@.len() == i,
            state == lcg_state(seed, i as nat),
            forall|j: int| 0 <= j < i ==> #[trigger] values@[j] == raw_value(seed, j as nat),
        decreases len - i,
    {
        state = state.wrapping_mul(LCG_MULTIPLIER).wrapping_add(LCG_INCREMENT);
        let mut value = state ^ (state >> 33u64);
        if value == FIND_NEEDLE {
            value = value ^ NEEDLE_SCRAMBLE;
        }
        values.push(value);
        i = i + 1;
    }
    let slot = (if len > usize::MAX / 3 { usize::MAX } else { len * 3 }) / 4;
    if slot < len {
        values.set(slot, FIND_NEEDLE);
    }
    proof {
        assert(slot == needle_index(len as nat));
    }
    values
}

/// Consecutive ranges of at most `chunk_size` indices covering `0..len`.
pub fn chunk_ranges(len: usize, chunk_size: usize) -> (r: Vec<Range<usize>>)
    requires
        chunk_size > 0,
    ensures
        len == 0 ==> r@.len() == 0,
        len > 0 ==> r@.len() > 0 && r@[0].start == 0 && r@[r@.len() - 1].end == len,
        forall|k: int| 0 <= k < r@.len() ==> (#[trigger] r@[k]).start < r@[k].end
            && r@[k].end == (if r@[k].start + chunk_size < len { r@[k].start + chunk_size } else { len as int }),
        forall|k: int| 0 <= k < r@.len() - 1 ==> (#[trigger] r@[k]).end == r@[k + 1].start,
{
    let mut ranges: Vec<Range<usize>> = Vec::new();
    if len == 0 {
        return ranges;
    }
    let mut start: usize = 0;
    while start < len
        invariant
            chunk_size > 0,
            0 <= start <= len,
            len > 0,
            ranges@.len() == 0 <==> start == 0,
            ranges@.len() > 0 ==> ranges@[0].start == 0 && ranges@[ranges@.len() - 1].end == start,
            forall|k: int| 0 <= k < ranges@.len() ==> (#[trigger] ranges@[k]).start < ranges@[k].end
                && ranges@[k].end == (if ranges@[k].start + chunk_size < len { ranges@[k].start + chunk_size } else { len as int }),
            forall|k: int| 0 <= k < ranges@.len() - 1 ==> (#[trigger] ranges@[k]).end == ranges@[k + 1].start,
        decreases len - start,
    {
        let end = if chunk_size < len - start { start + chunk_size } else { len };
        let ghost before = ranges@;
        ranges.push(start..end);
        proof {
            assert forall|k: int| 0 <= k < ranges@.len() - 1 implies (#[trigger] ranges@[k]).end == ranges@[k + 1].start by {
                if k + 1 < before.len() {
                    assert(ranges@[k] == before[k]);
                    assert(ranges@[k + 1] == before[k + 1]);
                }
            }
            assert forall|k: int| 0 <= k < ranges@.len() implies (#[trigger] ranges@[k]).start < ranges@[k].end
                && ranges@[k].end == (if ranges@[k].start + chunk_size < len { ranges@[k].start + chunk_size } else { len as int }) by {
                if k < before.len() {
                    assert(ranges@[k] == before[k]);
                }
            }
        }
        start = end;
    }
    ranges
}

/// The concatenation of a sequence of sequences.
pub open spec fn flatten(chunks: Seq<Seq<u64>>) -> Seq<u64>
    decreases chunks.len(),
{
    if chunks.len() == 0 {
        Seq::empty()
    } else {
        flatten(chunks.drop_last()) + chunks.last()
    }
}

pub open spec fn views(chunks: Seq<Vec<u64>>) -> Seq<Seq<u64>> {
    chunks.map_values(|c: Vec<u64>| c@)
}

/// Cuts `values` into consecutive chunks of `chunk_size` (the last one
/// possibly shorter); a chunk size of zero gives no chunks.
pub fn split_chunks(values: Vec<u64>, chunk_size: usize) -> (r: Vec<Vec<u64>>)
    ensures
        chunk_size == 0 ==> r@.len() == 0,
        chunk_size > 0 ==> flatten(views(r@)) == values@,
        chunk_size > 0 ==> forall|k: int| 0 <= k < r@.len() ==> 0 < (#[trigger] r@[k])@.len() <= chunk_size,
        chunk_size > 0 ==> forall|k: int| 0 <= k < r@.len() - 1 ==> (#[trigger] r@[k])@.len() == chunk_size,
{
    let mut chunks: Vec<Vec<u64>> = Vec::new();
    if chunk_size == 0 {
        return chunks;
    }
    let n = values.len();
    let mut start: usize = 0;
    proof {
        assert(flatten(views(chunks@)) =~= values@.subrange(0, 0));
    }
    while start < n
        invariant
            chunk_size > 0,
            n == values@.len(),
            start <= n,
            flatten(views(chunks@)) == values@.subrange(0, start as int),
            forall|k: int| 0 <= k < chunks@.len() ==> 0 < (#[trigger] chunks@[k])@.len() <= chunk_size,
            forall|k: int| 0 <= k < chunks@.len() - 1 ==> (#[trigger] chunks@[k])@.len() == chunk_size,
            chunks@.len() > 0 && chunks@[chunks@.len() - 1]@.len() < chunk_size ==> start == n,
        decreases n - start,
    {
        let end = if chunk_size < n - start { start + chunk_size } else { n };
        let mut chunk: Vec<u64> = Vec::new();
        let mut i = start;
        while i < end
            invariant
                start <= i <= end <= n,
                n == values@.len(),
                chunk@ == values@.subrange(start as int, i as int),
            decreases end - i,
        {
            chunk.push(values[i]);
            proof {
                assert(values@.subrange(start as int, i + 1) =~= values@.subrange(start as int, i as int).push(values@[i as int]));
            }
            i = i + 1;
        }
        let ghost before = chunks@;
        chunks.push(chunk);
        proof {
            assert(views(chunks@).drop_last() =~= views(before));
            assert(values@.subrange(0, end as int) =~= values@.subrange(0, start as int) + values@.subrange(start as int, end as int));
            assert forall|k: int| 0 <= k < chunks@.len() - 1 implies (#[trigger] chunks@[k])@.len() == chunk_size by {
                assert(chunks@[k] == before[k]);
            }
            assert forall|k: int| 0 <= k < chunks@.len() implies 0 < (#[trigger] chunks@[k])@.len() <= chunk_size by {
                if k < before.len() {
                    assert(chunks@[k] == before[k]);
                }
            }
        }
        start = end;
    }
    proof {
        assert(values@.subrange(0, n as int) =~= values@);
    }
    chunks
}

/// The standard merge of two sequences: repeatedly take the smaller front
/// element, the left one on ties.
pub open spec fn merge_spec(left: Seq<u64>, right: Seq<u64>) -> Seq<u64>
    decreases left.len() + right.len(),
{
    if left.len() == 0 {
        right
    } else if right.len() == 0 {
        left
    } else if left[0] <= right[0] {
        seq![left[0]] + merge_spec(left.drop_first(), right)
    } else {
        seq![right[0]] + merge_spec(left, right.drop_first())
    }
}

/// Merges two vectors.
pub fn merge_sorted(left: Vec<u64>, right: Vec<u64>) -> (r: Vec<u64>)
    ensures
        r@ == merge_spec(left@, right@),
{
    let mut merged: Vec<u64> = Vec::new();
    let mut i: usize = 0;
    let mut j: usize = 0;
    proof {
        assert(left@.subrange(0, left@.len() as int) =~= left@);
        assert(right@.subrange(0, right@.len() as int) =~= right@);
        assert(merged@ + merge_spec(left@, right@) =~= merge_spec(left@, right@));
    }
    while i < left.len() && j < right.len()
        invariant
            i <= left@.len(),
            j <= right@.len(),
            merged@ + merge_spec(left@.subrange(i as int, left@.len() as int), right@.subrange(j as int, right@.len() as int)) == merge_spec(left@, right@),
        decreases left@.len() - i + right@.len() - j,
    {
        let ghost l = left@.subrange(i as int, left@.len() as int);
        let ghost r = right@.subrange(j as int, right@.len() as int);
        if left[i] <= right[j] {
            proof {
                assert(l.drop_first() =~= left@.subrange(i + 1, left@.len() as int));
                assert(merged@.push(left@[i as int]) + merge_spec(l.drop_first(), r) =~= merged@ + merge_spec(l, r));
            }
            merged.push(left[i]);
            i = i + 1;
        } else {
            proof {
                assert(r.drop_first() =~= right@.subrange(j + 1, right@.len() as int));
                assert(merged@.push(right@[j as int]) + merge_spec(l, r.drop_first()) =~= merged@ + merge_spec(l, r));
            }
            merged.push(right[j]);
            j = j + 1;
        }
    }
    proof {
        let l = left@.subrange(i as int, left@.len() as int);
        let r = right@.subrange(j as int, right@.len() as int);
        if i == left@.len() {
            assert(l =~= Seq::<u64>::empty());
            assert(merge_spec(l, r) == r);
        } else {
            assert(r =~= Seq::<u64>::empty());
            assert(merge_spec(l, r) == l);
        }
        assert(merged@ + l + r =~= merged@ + merge_spec(l, r));
    }
    while i < left.len()
        invariant
            i <= left@.len(),
            j <= right@.len(),
            i == left@.len() || j == right@.len(),
            merged@ + left@.subrange(i as int, left@.len() as int) + right@.subrange(j as int, right@.len() as int) == merge_spec(left@, right@),
        decreases left@.len() - i,
    {
        proof {
            assert(merged@.push(left@[i as int]) + left@.subrange(i + 1, left@.len() as int) =~= merged@ + left@.subrange(i as int, left@.len() as int));
        }
        merged.push(left[i]);
        i = i + 1;
    }
    while j < right.len()
        invariant
            i == left@.len(),
            j <= right@.len(),
            merged@ + left@.subrange(i as int, left@.len() as int) + right@.subrange(j as int, right@.len() as int) == merge_spec(left@, right@),
        decreases right@.len() - j,
    {
        proof {
            assert(left@.subrange(i as int, left@.len() as int) =~= Seq::<u64>::empty());
            assert(merged@.push(right@[j as int]) + right@.subrange(j + 1, right@.len() as int) =~= merged@ + left@.subrange(i as int, left@.len() as int) + right@.subrange(j as int, right@.len() as int));
        }
        merged.push(right[j]);
        j = j + 1;
    }
    proof {
        assert(merged@ =~= merged@ + left@.subrange(i as int, left@.len() as int) + right@.subrange(j as int, right@.len() as int));
    }
    merged
}

/// No element is greater than a later one.
pub open spec fn ascending(s: Seq<u64>) -> bool {
    forall|i: int, j: int| 0 <= i < j < s.len() ==> #[trigger] s[i] <= #[trigger] s[j]
}

/// Every element is at least `x`.
pub open spec fn all_at_least(s: Seq<u64>, x: u64) -> bool {
    forall|i: int| 0 <= i < s.len() ==> x <= #[trigger] s[i]
}

proof fn lemma_merge_bound(left: Seq<u64>, right: Seq<u64>, x: u64)
    requires
        all_at_least(left, x),
        all_at_least(right, x),
    ensures
        all_at_least(merge_spec(left, right), x),
    decreases left.len() + right.len(),
{
    if left.len() > 0 && right.len() > 0 {
        if left[0] <= right[0] {
            lemma_merge_bound(left.drop_first(), right, x);
            let m = merge_spec(left.drop_first(), right);
            assert forall|i: int| 0 <= i < merge_spec(left, right).len() implies x <= #[trigger] merge_spec(left, right)[i] by {
                if i > 0 {
                    assert(merge_spec(left, right)[i] == m[i - 1]);
                }
            }
        } else {
            lemma_merge_bound(left, right.drop_first(), x);
            let m = merge_spec(left, right.drop_first());
            assert forall|i: int| 0 <= i < merge_spec(left, right).len() implies x <= #[trigger] merge_spec(left, right)[i] by {
                if i > 0 {
                    assert(merge_spec(left, right)[i] == m[i - 1]);
                }
            }
        }
    }
}

/// Merging two ascending sequences gives an ascending sequence holding
/// exactly their elements.
pub proof fn lemma_merge_sorted(left: Seq<u64>, right: Seq<u64>)
    requires
        ascending(left),
        ascending(right),
    ensures
        ascending(merge_spec(left, right)),
        merge_spec(left, right).to_multiset() == left.to_multiset().add(right.to_multiset()),
    decreases left.len() + right.len(),
{
    broadcast use vstd::seq_lib::lemma_multiset_commutative;
    broadcast use vstd::multiset::group_multiset_axioms;
    broadcast use vstd::seq_lib::group_to_multiset_ensures;
    broadcast use vstd::multiset::lemma_multiset_empty_len;
    let m = merge_spec(left, right);
    if left.len() == 0 {
        assert(left.to_multiset() =~= vstd::multiset::Multiset::empty());
        assert(m.to_multiset() =~= left.to_multiset().add(right.to_multiset()));
    } else if right.len() == 0 {
        assert(right.to_multiset() =~= vstd::multiset::Multiset::empty());
        assert(m.to_multiset() =~= left.to_multiset().add(right.to_multiset()));
    } else if left[0] <= right[0] {
        let l = left.drop_first();
        lemma_merge_sorted(l, right);
        let rest = merge_spec(l, right);
        assert(all_at_least(l, left[0]));
        assert(all_at_least(right, left[0]));
        lemma_merge_bound(l, right, left[0]);
        assert forall|i: int, j: int| 0 <= i < j < m.len() implies #[trigger] m[i] <= #[trigger] m[j] by {
            assert(m[j] == rest[j - 1]);
            if i > 0 {
                assert(m[i] == rest[i - 1]);
            }
        }
        assert(left =~= seq![left[0]] + l);
        assert(m.to_multiset() =~= left.to_multiset().add(right.to_multiset()));
    } else {
        let r = right.drop_first();
        lemma_merge_sorted(left, r);
        let rest = merge_spec(left, r);
        assert(all_at_least(left, right[0]));
        assert(all_at_least(r, right[0]));
        lemma_merge_bound(left, r, right[0]);
        assert forall|i: int, j: int| 0 <= i < j < m.len() implies #[trigger] m[i] <= #[trigger] m[j] by {
            assert(m[j] == rest[j - 1]);
            if i > 0 {
                assert(m[i] == rest[i - 1]);
            }
        }
        assert(right =~= seq![right[0]] + r);
        assert(m.to_multiset() =~= left.to_multiset().add(right.to_multiset()));
    }
}

/// One round of pairwise merging: neighbours are merged, an odd last chunk
/// is carried over.
pub fn merge_round(chunks: Vec<Vec<u64>>) -> (r: Vec<Vec<u64>>)
    ensures
        r@.len() == (chunks@.len() + 1) / 2,
        forall|k: int| 0 <= k < r@.len() ==> (#[trigger] r@[k])@ == (if 2 * k + 1 < chunks@.len() {
            merge_spec(chunks@[2 * k]@, chunks@[2 * k + 1]@)
        } else {
            chunks@[2 * k]@
        }),
{
    let mut chunks = chunks;
    let ghost initial = chunks@;
    let mut next: Vec<Vec<u64>> = Vec::new();
    let mut rest: Vec<Vec<u64>> = Vec::new();
    // take the chunks out from the back, so that they can be moved
    while chunks.len() > 0
        invariant
            initial.len() == chunks@.len() + rest@.len(),
            forall|k: int| 0 <= k < chunks@.len() ==> #[trigger] chunks@[k] == initial[k],
            forall|k: int| 0 <= k < rest@.len() ==> #[trigger] rest@[k] == initial[initial.len() - 1 - k],
        decreases chunks@.len(),
    {
        let c = chunks.pop().unwrap();
        rest.push(c);
    }
    let n = rest.len();
    let mut taken: usize = 0;
    while rest.len() > 0
        invariant
            n == initial.len(),
            rest@.len() + taken == n,
            forall|k: int| 0 <= k < rest@.len() ==> #[trigger] rest@[k] == initial[initial.len() - 1 - k],
            taken % 2 == 0 || rest@.len() == 0,
            next@.len() == (taken + 1) / 2,
            forall|k: int| 0 <= k < next@.len() ==> (#[trigger] next@[k])@ == (if 2 * k + 1 < n {
                merge_spec(initial[2 * k]@, initial[2 * k + 1]@)
            } else {
                initial[2 * k]@
            }),
        decreases rest@.len(),
    {
        let left = rest.pop().unwrap();
        proof {
            assert(left == initial[taken as int]);
        }
        if rest.len() > 0 {
            let right = rest.pop().unwrap();
            proof {
                assert(right == initial[taken + 1]);
            }
            let merged = merge_sorted(left, right);
            next.push(merged);
            taken = taken + 2;
        } else {
            next.push(left);
            taken = taken + 1;
            proof {
                assert(taken == n);
            }
        }
        proof {
            if taken % 2 != 0 {
                assert(rest@.len() == 0);
            }
        }
    }
    next
}

/// The values of all chunks, counted with multiplicity.
pub open spec fn chunks_multiset(chunks: Seq<Seq<u64>>) -> Multiset<u64>
    decreases chunks.len(),
{
    if chunks.len() == 0 {
        Multiset::empty()
    } else {
        chunks_multiset(chunks.drop_last()).add(chunks.last().to_multiset())
    }
}

proof fn lemma_flatten_multiset(chunks: Seq<Seq<u64>>)
    ensures
        flatten(chunks).to_multiset() == chunks_multiset(chunks),
    decreases chunks.len(),
{
    broadcast use vstd::seq_lib::lemma_multiset_commutative;
    broadcast use vstd::seq_lib::group_to_multiset_ensures;
    if chunks.len() == 0 {
        assert(flatten(chunks).to_multiset() =~= Multiset::empty());
    } else {
        lemma_flatten_multiset(chunks.drop_last());
    }
}

/// Which chunks a round of pairwise merging turns into chunk `k`.
pub open spec fn merged_pair(chunks: Seq<Seq<u64>>, k: int) -> Seq<u64> {
    if 2 * k + 1 < chunks.len() {
        merge_spec(chunks[2 * k], chunks[2 * k + 1])
    } else {
        chunks[2 * k]
    }
}

proof fn lemma_merge_round_keeps(chunks: Seq<Seq<u64>>, next: Seq<Seq<u64>>, k: int)
    requires
        next.len() == (chunks.len() + 1) / 2,
        forall|j: int| 0 <= j < next.len() ==> #[trigger] next[j] == merged_pair(chunks, j),
        forall|j: int| 0 <= j < chunks.len() ==> ascending(#[trigger] chunks[j]),
        0 <= k <= next.len(),
    ensures
        chunks_multiset(next.subrange(0, k)) == chunks_multiset(chunks.subrange(0, if 2 * k <= chunks.len() { 2 * k } else { chunks.len() as int })),
        forall|j: int| 0 <= j < k ==> ascending(#[trigger] next[j]),
    decreases k,
{
    broadcast use vstd::multiset::group_multiset_axioms;
    if k == 0 {
        assert(next.subrange(0, 0) =~= Seq::<Seq<u64>>::empty());
        assert(chunks.subrange(0, 0) =~= Seq::<Seq<u64>>::empty());
    } else {
        lemma_merge_round_keeps(chunks, next, k - 1);
        let j = k - 1;
        assert(next.subrange(0, k).drop_last() =~= next.subrange(0, j));
        assert(next[j] == merged_pair(chunks, j));
        let lo = 2 * j;
        assert(chunks.subrange(0, lo + 1).drop_last() =~= chunks.subrange(0, lo));
        if 2 * j + 1 < chunks.len() {
            lemma_merge_sorted(chunks[lo], chunks[lo + 1]);
            assert(chunks.subrange(0, lo + 2).drop_last() =~= chunks.subrange(0, lo + 1));
            assert(chunks.subrange(0, lo + 2).last() == chunks[lo + 1]);
            assert(chunks.subrange(0, lo + 1).last() == chunks[lo]);
            assert(next.subrange(0, k).last() == next[j]);
            assert(chunks_multiset(chunks.subrange(0, lo + 1)) == chunks_multiset(chunks.subrange(0, lo)).add(
                chunks[lo].to_multiset(),
            ));
            assert(chunks_multiset(chunks.subrange(0, lo + 2)) == chunks_multiset(chunks.subrange(0, lo + 1)).add(
                chunks[lo + 1].to_multiset(),
            ));
            assert(chunks_multiset(chunks.subrange(0, lo + 2)) =~= chunks_multiset(chunks.subrange(0, lo)).add(
                chunks[lo].to_multiset(),
            ).add(chunks[lo + 1].to_multiset()));
            assert(chunks_multiset(next.subrange(0, k)) =~= chunks_multiset(next.subrange(0, j)).add(
                chunks[lo].to_multiset().add(chunks[lo + 1].to_multiset()),
            ));
        } else {
            assert(lo + 1 == chunks.len());
            assert(chunks.subrange(0, lo + 1).last() == chunks[lo]);
            assert(next.subrange(0, k).last() == next[j]);
        }
    }
}

/// One round of pairwise merging: chunk `2k` merged with chunk `2k + 1`,
/// and an odd last chunk kept as it is.
pub open spec fn merge_round_of(chunks: Seq<Seq<u64>>) -> Seq<Seq<u64>> {
    Seq::new(((chunks.len() + 1) / 2) as nat, |k: int| merged_pair(chunks, k))
}

/// What merging round after round leaves, sorted or not: the one chunk that
/// remains, or nothing when there were no chunks.
pub open spec fn merge_rounds(chunks: Seq<Seq<u64>>) -> Seq<u64>
    decreases chunks.len(),
{
    if chunks.len() == 0 {
        Seq::empty()
    } else if chunks.len() == 1 {
        chunks[0]
    } else {
        merge_rounds(merge_round_of(chunks))
    }
}

/// Merges sorted chunks pairwise, round after round, into one.  When every
/// chunk is ascending, the result is ascending and holds exactly the values
/// of all chunks; no chunks give an empty result.
pub fn merge_all(chunks: Vec<Vec<u64>>) -> (r: Vec<u64>)
    ensures
        r@ == merge_rounds(views(chunks@)),
        chunks@.len() == 0 ==> r@.len() == 0,
        (forall|k: int| 0 <= k < chunks@.len() ==> ascending(#[trigger] chunks@[k]@)) ==> {
            &&& ascending(r@)
            &&& r@.to_multiset() == flatten(views(chunks@)).to_multiset()
        },
{
    let ghost all_sorted = forall|k: int| 0 <= k < chunks@.len() ==> ascending(#[trigger] chunks@[k]@);
    let ghost total = chunks_multiset(views(chunks@));
    let ghost n0 = chunks@.len();
    let ghost old_chunks = chunks@;
    proof {
        lemma_flatten_multiset(views(chunks@));
    }
    let mut chunks = chunks;
    while chunks.len() > 1
        invariant
            all_sorted ==> forall|k: int| 0 <= k < chunks@.len() ==> ascending(#[trigger] chunks@[k]@),
            all_sorted ==> chunks_multiset(views(chunks@)) == total,
            chunks@.len() > 0 || total == chunks_multiset(views(chunks@)),
            (n0 == 0) == (chunks@.len() == 0),
            merge_rounds(views(chunks@)) == merge_rounds(views(old_chunks)),
        decreases chunks@.len(),
    {
        let ghost before = views(chunks@);
        chunks = merge_round(chunks);
        proof {
            let after = views(chunks@);
            assert(after =~= merge_round_of(before));
            assert forall|j: int| 0 <= j < after.len() implies #[trigger] after[j] == merged_pair(before, j) by {
                assert(after[j] == chunks@[j]@);
            }
            if all_sorted {
                lemma_merge_round_keeps(before, after, after.len() as int);
                assert(after.subrange(0, after.len() as int) =~= after);
                assert(before.subrange(0, before.len() as int) =~= before);
                assert forall|k: int| 0 <= k < chunks@.len() implies ascending(#[trigger] chunks@[k]@) by {
                    assert(after[k] == chunks@[k]@);
                }
            }
        }
    }
    let ghost rest = views(chunks@);
    let merged = match chunks.pop() {
        Some(last) => last,
        None => Vec::new(),
    };
    proof {
        broadcast use vstd::multiset::group_multiset_axioms;
        broadcast use vstd::seq_lib::group_to_multiset_ensures;
        broadcast use vstd::multiset::lemma_multiset_empty_len;
        if rest.len() == 1 {
            assert(rest.drop_last() =~= Seq::<Seq<u64>>::empty());
            assert(chunks_multiset(rest.drop_last()) == Multiset::<u64>::empty());
            assert(rest.last() == merged@);
            assert(chunks_multiset(rest) =~= merged@.to_multiset());
        } else {
            assert(rest.len() == 0);
            assert(merged@ =~= Seq::<u64>::empty());
            assert(merged@.to_multiset().len() == 0);
            assert(total =~= Multiset::empty());
            assert(merged@.to_multiset() =~= Multiset::<u64>::empty());
        }
    }
    merged
}

/// Sum with wraparound.
pub open spec fn wrapping_sum(s: Seq<u64>) -> u64
    decreases s.len(),
{
    if s.len() == 0 { 0 } else { wrapping_add(wrapping_sum(s.drop_last()), s.last()) }
}

/// The chunk totals of a reduction added up, with wraparound, in chunk order.
pub fn total_of_sums(totals: &[u64]) -> (r: u64)
    ensures
        r == wrapping_sum(totals@),
{
    let mut acc: u64 = 0;
    let mut i: usize = 0;
    while i < totals.len()
        invariant
            i <= totals@.len(),
            acc == wrapping_sum(totals@.subrange(0, i as int)),
        decreases totals@.len() - i,
    {
        proof {
            assert(totals@.subrange(0, i + 1).drop_last() =~= totals@.subrange(0, i as int));
        }
        acc = acc.wrapping_add(totals[i]);
        i = i + 1;
    }
    proof {
        assert(totals@.subrange(0, totals@.len() as int) =~= totals@);
    }
    acc
}

/// The least of the indices found in the chunks, if any chunk found one.
pub open spec fn least_found_spec(found: Seq<Option<usize>>) -> Option<usize>
    decreases found.len(),
{
    if found.len() == 0 {
        None
    } else {
        let rest = least_found_spec(found.drop_last());
        match found.last() {
            Some(i) => match rest {
                Some(m) => Some(if m <= i { m } else { i }),
                None => Some(i),
            },
            None => rest,
        }
    }
}

/// The answer of the find scenario from the chunks' answers: the least
/// index found, or `u64::MAX` when no chunk found the needle.
pub fn least_found(found: &[Option<usize>]) -> (r: u64)
    ensures
        r == match least_found_spec(found@) {
            Some(i) => i as u64,
            None => u64::MAX,
        },
{
    let mut best: Option<usize> = None;
    let mut k: usize = 0;
    while k < found.len()
        invariant
            k <= found@.len(),
            best == least_found_spec(found@.subrange(0, k as int)),
        decreases found@.len() - k,
    {
        proof {
            assert(found@.subrange(0, k + 1).drop_last() =~= found@.subrange(0, k as int));
        }
        match found[k] {
            Some(i) => {
                best = match best {
                    Some(m) => Some(if m <= i { m } else { i }),
                    None => Some(i),
                };
            },
            None => {},
        }
        k = k + 1;
    }
    proof {
        assert(found@.subrange(0, found@.len() as int) =~= found@);
    }
    match best {
        Some(i) => i as u64,
        None => u64::MAX,
    }
}

/// The chunks' outputs one after the other.
pub fn concat_chunks(parts: &Vec<Vec<u64>>) -> (r: Vec<u64>)
    ensures
        r@ == flatten(views(parts@)),
{
    let mut out: Vec<u64> = Vec::new();
    let mut k: usize = 0;
    while k < parts.len()
        invariant
            k <= parts@.len(),
            out@ == flatten(views(parts@.subrange(0, k as int))),
        decreases parts@.len() - k,
    {
        let part = &parts[k];
        let ghost before = out@;
        let mut i: usize = 0;
        while i < part.len()
            invariant
                i <= part@.len(),
                out@ == before + part@.subrange(0, i as int),
            decreases part@.len() - i,
        {
            out.push(part[i]);
            i = i + 1;
            proof {
                assert(out@ =~= before + part@.subrange(0, i as int));
            }
        }
        proof {
            assert(part@.subrange(0, part@.len() as int) =~= part@);
            assert(views(parts@.subrange(0, k + 1)).drop_last() =~= views(parts@.subrange(0, k as int)));
            assert(views(parts@.subrange(0, k + 1)).last() == part@);
        }
        k = k + 1;
    }
    proof {
        assert(parts@.subrange(0, parts@.len() as int) =~= parts@);
    }
    out
}

/// The wrapping sum of `values[range]`.
pub fn sum_range_wrapping(values: &[u64], range: Range<usize>) -> (r: u64)
    requires
        range.start <= range.end <= values@.len(),
    ensures
        r == wrapping_sum(values@.subrange(range.start as int, range.end as int)),
{
    let mut acc: u64 = 0;
    let mut i = range.start;
    proof {
        assert(values@.subrange(range.start as int, range.start as int) =~= Seq::<u64>::empty());
    }
    while i < range.end
        invariant
            range.start <= i <= range.end <= values@.len(),
            acc == wrapping_sum(values@.subrange(range.start as int, i as int)),
        decreases range.end - i,
    {
        proof {
            assert(values@.subrange(range.start as int, i + 1).drop_last() =~= values@.subrange(range.start as int, i as int));
        }
        acc = acc.wrapping_add(values[i]);
        i = i + 1;
    }
    acc
}

/// Where each chunk's running sum starts: the wrapping sum of the totals
/// of the chunks before it.
pub fn chunk_offsets(totals: &[u64]) -> (r: Vec<u64>)
    ensures
        r@.len() == totals@.len(),
        forall|k: int| 0 <= k < totals@.len() ==> #[trigger] r@[k] == wrapping_sum(totals@.subrange(0, k)),
{
    let mut offsets: Vec<u64> = Vec::new();
    let mut carry: u64 = 0;
    let mut i: usize = 0;
    proof {
        assert(totals@.subrange(0, 0) =~= Seq::<u64>::empty());
    }
    while i < totals.len()
        invariant
            i <= totals@.len(),
            offsets@.len() == i,
            carry == wrapping_sum(totals@.subrange(0, i as int)),
            forall|k: int| 0 <= k < i ==> #[trigger] offsets@[k] == wrapping_sum(totals@.subrange(0, k)),
        decreases totals@.len() - i,
    {
        offsets.push(carry);
        proof {
            assert(totals@.subrange(0, i + 1).drop_last() =~= totals@.subrange(0, i as int));
        }
        carry = carry.wrapping_add(totals[i]);
        i = i + 1;
    }
    offsets
}

/// Running wrapping sums over `values[range]`, starting from `offset`.
pub fn scan_chunk_with_offset(values: &[u64], range: Range<usize>, offset: u64) -> (r: Vec<u64>)
    requires
        range.start <= range.end <= values@.len(),
    ensures
        r@.len() == range.end - range.start,
        forall|k: int| 0 <= k < r@.len() ==> #[trigger] r@[k] == wrapping_add(offset, wrapping_sum(values@.subrange(range.start as int, range.start + k + 1))),
{
    let mut acc = offset;
    let ghost mut sum: u64 = 0;
    let mut output: Vec<u64> = Vec::new();
    let mut i = range.start;
    proof {
        assert(values@.subrange(range.start as int, range.start as int) =~= Seq::<u64>::empty());
        assert(wrapping_add(offset, 0) == offset);
    }
    while i < range.end
        invariant
            range.start <= i <= range.end <= values@.len(),
            output@.len() == i - range.start,
            sum == wrapping_sum(values@.subrange(range.start as int, i as int)),
            acc == wrapping_add(offset, sum),
            forall|k: int| 0 <= k < output@.len() ==> #[trigger] output@[k] == wrapping_add(offset, wrapping_sum(values@.subrange(range.start as int, range.start + k + 1))),
        decreases range.end - i,
    {
        proof {
            assert(values@.subrange(range.start as int, i + 1).drop_last() =~= values@.subrange(range.start as int, i as int));
            let v = values@[i as int];
            assert(wrapping_add(wrapping_add(offset, sum), v) == wrapping_add(offset, wrapping_add(sum, v))) by {
                assert(wrapping_add(wrapping_add(offset, sum), v) as int == (offset + sum + v) % 0x1_0000_0000_0000_0000) by (nonlinear_arith);
                assert(wrapping_add(offset, wrapping_add(sum, v)) as int == (offset + sum + v) % 0x1_0000_0000_0000_0000) by (nonlinear_arith);
            }
            sum = wrapping_add(sum, v);
        }
        acc = acc.wrapping_add(values[i]);
        output.push(acc);
        i = i + 1;
    }
    output
}

/// The first index in `range` holding `needle`.
pub fn find_value(values: &[u64], range: Range<usize>, needle: u64) -> (r: Option<usize>)
    requires
        range.start <= range.end <= values@.len(),
    ensures
        match r {
            Some(i) => range.start <= i < range.end && values@[i as int] == needle
                && forall|j: int| range.start <= j < i ==> #[trigger] values@[j] != needle,
            None => forall|j: int| range.start <= j < range.end ==> #[trigger] values@[j] != needle,
        },
{
    let mut i = range.start;
    while i < range.end
        invariant
            range.start <= i <= range.end <= values@.len(),
            forall|j: int| range.start <= j < i ==> #[trigger] values@[j] != needle,
        decreases range.end - i,
    {
        if values[i] == needle {
            return Some(i);
        }
        i = i + 1;
    }
    None
}

/// `transform_value` of each element of `values[range]`.
pub fn transform_chunk(values: &[u64], range: Range<usize>) -> (r: Vec<u64>)
    requires
        range.start <= range.end <= values@.len(),
    ensures
        r@.len() == range.end - range.start,
        forall|k: int| 0 <= k < r@.len() ==> #[trigger] r@[k] == wrapping_add(rotl7(values@[range.start + k]), TRANSFORM_ADDEND),
{
    let mut output: Vec<u64> = Vec::new();
    let mut i = range.start;
    while i < range.end
        invariant
            range.start <= i <= range.end <= values@.len(),
            output@.len() == i - range.start,
            forall|k: int| 0 <= k < output@.len() ==> #[trigger] output@[k] == wrapping_add(rotl7(values@[range.start + k]), TRANSFORM_ADDEND),
        decreases range.end - i,
    {
        output.push(transform_value(values[i]));
        i = i + 1;
    }
    output
}

/// No element is greater than a later one.
pub open spec fn ascending_u128(s: Seq<u128>) -> bool {
    forall|i: int, j: int| 0 <= i < j < s.len() ==> #[trigger] s[i] <= #[trigger] s[j]
}

/// Sorts with `<[u128]>::sort_unstable`.  Trusted: std documents that the
/// slice ends up in ascending order, rearranging its elements only.
#[verifier::external_body]
fn sort_u128s(values: &mut [u128])
    ensures
        final(values)@.to_multiset() == old(values)@.to_multiset(),
        ascending_u128(final(values)@),
{
    values.sort_unstable();
}

/// The median of ascending samples: the middle one, or the (rounded down)
/// mean of the two middle ones.
pub open spec fn median_of_sorted(t: Seq<u128>) -> int {
    if t.len() == 0 {
        0
    } else if t.len() % 2 == 0 {
        (t[t.len() / 2 - 1] + t[(t.len() / 2) as int]) / 2
    } else {
        t[(t.len() / 2) as int] as int
    }
}

/// The median of the samples (0 for none).
pub fn median(values: &[u128]) -> (r: u128)
    ensures
        values@.len() == 0 ==> r == 0,
        exists|t: Seq<u128>| #![trigger median_of_sorted(t)]
            t.to_multiset() == values@.to_multiset() && ascending_u128(t) && r == median_of_sorted(t),
{
    if values.len() == 0 {
        proof {
            assert(values@.to_multiset() == values@.to_multiset());
            assert(ascending_u128(values@));
            assert(median_of_sorted(values@) == 0);
        }
        return 0;
    }
    let mut sorted: Vec<u128> = Vec::new();
    let mut i: usize = 0;
    while i < values.len()
        invariant
            i <= values@.len(),
            sorted@ == values@.subrange(0, i as int),
        decreases values@.len() - i,
    {
        sorted.push(values[i]);
        proof {
            assert(values@.subrange(0, i + 1) =~= values@.subrange(0, i as int).push(values@[i as int]));
        }
        i = i + 1;
    }
    proof {
        assert(values@.subrange(0, values@.len() as int) =~= values@);
    }
    sort_u128s(sorted.as_mut_slice());
    let n = sorted.len();
    proof {
        broadcast use vstd::seq_lib::group_to_multiset_ensures;
        assert(sorted@.len() == sorted@.to_multiset().len());
    }
    let mid = n / 2;
    let r = if n % 2 == 0 {
        let a = sorted[mid - 1];
        let b = sorted[mid];
        let avg = a / 2 + b / 2 + (a % 2 + b % 2) / 2;
        proof {
            assert(a == 2 * (a / 2) + a % 2);
            assert(b == 2 * (b / 2) + b % 2);
            assert(a + b == 2 * (a / 2 + b / 2) + (a % 2 + b % 2));
            assert((a + b) / 2 == a / 2 + b / 2 + (a % 2 + b % 2) / 2);
        }
        avg
    } else {
        sorted[mid]
    };
    proof {
        assert(median_of_sorted(sorted@) == r);
    }
    r
}

/// Timing results of one backend on one scenario.
#[derive(Clone, Debug)]
pub struct BenchmarkEntry {
    pub backend: BackendId,
    pub scenario: ScenarioId,
    pub available: bool,
    pub reason: Option<String>,
    pub samples_ns: Vec<u128>,
    pub min_ns: u128,
    pub max_ns: u128,
    pub median_ns: u128,
    pub mean_ns: u128,
    pub checksum: u64,
}

/// The sum of the samples.
pub open spec fn sample_sum(s: Seq<u128>) -> int
    decreases s.len(),
{
    if s.len() == 0 { 0 } else { sample_sum(s.drop_last()) + s.last() }
}

/// The entry of a backend that ran: smallest, largest, median and mean
/// (rounded down) of the samples, all 0 when there are none.
pub fn available_entry(backend: BackendId, scenario: ScenarioId, samples_ns: Vec<u128>, checksum: u64) -> (r: BenchmarkEntry)
    requires
        sample_sum(samples_ns@) <= u128::MAX,
    ensures
        r.backend == backend,
        r.scenario == scenario,
        r.available,
        r.reason is None,
        r.samples_ns@ == samples_ns@,
        r.checksum == checksum,
        samples_ns@.len() == 0 ==> r.min_ns == 0 && r.max_ns == 0 && r.mean_ns == 0 && r.median_ns == 0,
        samples_ns@.len() > 0 ==> {
            &&& (exists|i: int| 0 <= i < samples_ns@.len() && samples_ns@[i] == r.min_ns)
            &&& (forall|i: int| 0 <= i < samples_ns@.len() ==> r.min_ns <= #[trigger] samples_ns@[i])
            &&& (exists|i: int| 0 <= i < samples_ns@.len() && samples_ns@[i] == r.max_ns)
            &&& (forall|i: int| 0 <= i < samples_ns@.len() ==> #[trigger] samples_ns@[i] <= r.max_ns)
            &&& r.mean_ns == sample_sum(samples_ns@) / (samples_ns@.len() as int)
        },
        exists|t: Seq<u128>| #![trigger median_of_sorted(t)]
            t.to_multiset() == samples_ns@.to_multiset() && ascending_u128(t) && r.median_ns == median_of_sorted(t),
{
    let n = samples_ns.len();
    let mut min_ns: u128 = 0;
    let mut max_ns: u128 = 0;
    let mut sum: u128 = 0;
    let mut i: usize = 0;
    proof {
        assert(samples_ns@.subrange(0, 0) =~= Seq::<u128>::empty());
    }
    while i < n
        invariant
            n == samples_ns@.len(),
            i <= n,
            sample_sum(samples_ns@) <= u128::MAX,
            sum == sample_sum(samples_ns@.subrange(0, i as int)),
            i == 0 ==> min_ns == 0 && max_ns == 0,
            i > 0 ==> exists|j: int| 0 <= j < i && samples_ns@[j] == min_ns,
            i > 0 ==> exists|j: int| 0 <= j < i && samples_ns@[j] == max_ns,
            forall|j: int| 0 <= j < i ==> min_ns <= #[trigger] samples_ns@[j] && samples_ns@[j] <= max_ns,
        decreases n - i,
    {
        let v = samples_ns[i];
        if i == 0 || v < min_ns {
            min_ns = v;
        }
        if i == 0 || v > max_ns {
            max_ns = v;
        }
        proof {
            assert(samples_ns@.subrange(0, i + 1).drop_last() =~= samples_ns@.subrange(0, i as int));
            lemma_sample_sum_prefix(samples_ns@, i as int + 1);
        }
        sum = sum + v;
        i = i + 1;
    }
    proof {
        assert(samples_ns@.subrange(0, n as int) =~= samples_ns@);
    }
    let mean_ns = if n == 0 { 0 } else { sum / (n as u128) };
    let median_ns = median(samples_ns.as_slice());
    BenchmarkEntry {
        backend,
        scenario,
        available: true,
        reason: None,
        samples_ns,
        min_ns,
        max_ns,
        median_ns,
        mean_ns,
        checksum,
    }
}

/// Sums of prefixes are at most the whole sum.
proof fn lemma_sample_sum_prefix(s: Seq<u128>, k: int)
    requires
        0 <= k <= s.len(),
    ensures
        sample_sum(s.subrange(0, k)) <= sample_sum(s),
    decreases s.len() - k,
{
    if k < s.len() {
        lemma_sample_sum_prefix(s, k + 1);
        assert(s.subrange(0, k + 1).drop_last() =~= s.subrange(0, k));
    } else {
        assert(s.subrange(0, k) =~= s);
    }
}

/// The entry of a backend that could not run, with the reason.
pub fn unavailable_entry(backend: BackendId, scenario: ScenarioId, reason: String) -> (r: BenchmarkEntry)
    ensures
        r.backend == backend,
        r.scenario == scenario,
        !r.available,
        r.reason == Some(reason),
        r.samples_ns@.len() == 0,
        r.min_ns == 0 && r.max_ns == 0 && r.median_ns == 0 && r.mean_ns == 0 && r.checksum == 0,
{
    BenchmarkEntry {
        backend,
        scenario,
        available: false,
        reason: Some(reason),
        samples_ns: Vec::new(),
        min_ns: 0,
        max_ns: 0,
        median_ns: 0,
        mean_ns: 0,
        checksum: 0,
    }
}

} // verus!
