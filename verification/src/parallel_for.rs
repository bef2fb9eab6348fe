use vstd::prelude::*;
use std::ops::Range;

verus! {

/// How large the chunks of a parallel loop are.
#[derive(Clone, Copy, Debug, PartialEq, Eq, Structural)]
pub enum ChunkSize {
    Auto,
    Fixed(usize),
}

/// Options of a parallel loop.
#[derive(Clone, Copy, Debug, PartialEq, Eq, Structural)]
pub struct ParallelForOptions {
    pub chunk_size: ChunkSize,
}

impl Default for ParallelForOptions {
    fn default() -> (r: Self)
        ensures
            r.chunk_size == ChunkSize::Auto,
    {
        ParallelForOptions { chunk_size: ChunkSize::Auto }
    }
}

/// `a * b`, or `usize::MAX` when that does not fit.
pub open spec fn mul_saturating(a: nat, b: nat) -> nat {
    if a * b > usize::MAX { usize::MAX as nat } else { a * b }
}

/// `a / b` rounded up.
pub open spec fn div_ceil(a: nat, b: nat) -> nat {
    if a % b == 0 { a / b } else { a / b + 1 }
}

/// The chunk size a loop over `len` indices uses on `workers` workers: the fixed
/// size, or (automatically) enough for about four chunks per worker, at least 1.
pub open spec fn spec_resolve_chunk_size(chunk_size: ChunkSize, len: nat, workers: nat) -> nat {
    match chunk_size {
        ChunkSize::Fixed(c) => c as nat,
        ChunkSize::Auto => {
            let w = if workers > 1 { workers } else { 1 };
            let target = mul_saturating(w, 4);
            let c = div_ceil(len, target);
            if c > 1 { c } else { 1 }
        },
    }
}

impl ParallelForOptions {
    /// Options with a fixed chunk size, which must be positive.
    pub fn with_chunk_size(self, chunk_size: usize) -> (r: Self)
        requires
            chunk_size > 0,
        ensures
            r.chunk_size == ChunkSize::Fixed(chunk_size),
    {
        ParallelForOptions { chunk_size: ChunkSize::Fixed(chunk_size) }
    }

    pub fn resolve_chunk_size_for_workers(self, len: usize, workers: usize) -> (r: usize)
        ensures
            r == spec_resolve_chunk_size(self.chunk_size, len as nat, workers as nat),
    {
        match self.chunk_size {
            ChunkSize::Fixed(c) => c,
            ChunkSize::Auto => {
                let w = if workers > 1 { workers } else { 1 };
                let target = if w > usize::MAX / 4 { usize::MAX } else { w * 4 };
                assert(len / target <= len) by (nonlinear_arith) requires target >= 1;
                assert(len / target < usize::MAX) by (nonlinear_arith) requires target >= 4, len <= usize::MAX;
                let c = if len % target == 0 { len / target } else { len / target + 1 };
                if c > 1 { c } else { 1 }
            },
        }
    }
}

/// `chunks` cuts `start..end` into consecutive non-empty pieces of `size`
/// indices, the last one possibly shorter.
pub open spec fn fixed_chunks(chunks: Seq<Range<usize>>, start: nat, end: nat, size: nat) -> bool {
    &&& (chunks.len() == 0 <==> start >= end)
    &&& chunks.len() > 0 ==> chunks[0].start == start && chunks[chunks.len() - 1].end == end
    &&& forall|k: int|
        0 <= k < chunks.len() ==> {
            &&& (#[trigger] chunks[k]).start < chunks[k].end
            &&& chunks[k].end as int == (if chunks[k].start + size < end { chunks[k].start + size } else { end as int })
        }
    &&& forall|k: int| 0 <= k < chunks.len() - 1 ==> (#[trigger] chunks[k]).end == chunks[k + 1].start
}

/// Cuts `range` into chunks of the size the options give for `workers` workers.
pub fn chunk_ranges_for_workers(range: Range<usize>, options: ParallelForOptions, workers: usize) -> (r: Vec<Range<usize>>)
    requires
        options.chunk_size is Fixed ==> options.chunk_size->Fixed_0 > 0,
    ensures
        fixed_chunks(
            r@,
            range.start as nat,
            range.end as nat,
            spec_resolve_chunk_size(
                options.chunk_size,
                (if range.end >= range.start { range.end - range.start } else { 0 }) as nat,
                workers as nat,
            ),
        ),
{
    let len = if range.end >= range.start { range.end - range.start } else { 0 };
    let mut chunks: Vec<Range<usize>> = Vec::new();
    if len == 0 {
        return chunks;
    }
    let chunk_size = options.resolve_chunk_size_for_workers(len, workers);
    let mut chunk_start = range.start;
    while chunk_start < range.end
        invariant
            chunk_size > 0,
            range.start <= chunk_start <= range.end,
            range.start < range.end,
            chunks@.len() == 0 <==> chunk_start == range.start,
            chunks@.len() > 0 ==> chunks@[0].start == range.start && chunks@[chunks@.len() - 1].end == chunk_start,
            forall|k: int|
                0 <= k < chunks@.len() ==> {
                    &&& (#[trigger] chunks@[k]).start < chunks@[k].end
                    &&& chunks@[k].end as int == (if chunks@[k].start + chunk_size < range.end { chunks@[k].start + chunk_size } else { range.end as int })
                },
            forall|k: int| 0 <= k < chunks@.len() - 1 ==> (#[trigger] chunks@[k]).end == chunks@[k + 1].start,
        decreases range.end - chunk_start,
    {
        let chunk_end = if chunk_size < range.end - chunk_start { chunk_start + chunk_size } else { range.end };
        let ghost before = chunks@;
        chunks.push(chunk_start..chunk_end);
        proof {
            assert forall|k: int| 0 <= k < chunks@.len() - 1 implies (#[trigger] chunks@[k]).end == chunks@[k + 1].start by {
                if k + 1 < before.len() {
                    assert(chunks@[k] == before[k]);
                    assert(chunks@[k + 1] == before[k + 1]);
                }
            }
            assert forall|k: int| 0 <= k < chunks@.len() implies {
                &&& (#[trigger] chunks@[k]).start < chunks@[k].end
                &&& chunks@[k].end as int == (if chunks@[k].start + chunk_size < range.end { chunks@[k].start + chunk_size } else { range.end as int })
            } by {
                if k < before.len() {
                    assert(chunks@[k] == before[k]);
                }
            }
        }
        chunk_start = chunk_end;
    }
    chunks
}

/// `chunks` cuts `start..start + len` into `w` consecutive pieces whose sizes
/// differ by at most one, the longer ones first.
pub open spec fn balanced_chunks(chunks: Seq<Range<usize>>, start: nat, len: nat, w: nat) -> bool {
    &&& chunks.len() == w
    &&& w > 0 ==> chunks[0].start == start && chunks[w - 1].end == start + len
    &&& forall|k: int|
        0 <= k < w ==> (#[trigger] chunks[k]).end - chunks[k].start == len / w + (if k < len % w { 1int } else { 0int })
    &&& forall|k: int| 0 <= k < w - 1 ==> (#[trigger] chunks[k]).end == chunks[k + 1].start
}

/// The number of balanced chunks used for `len` indices on `workers` workers:
/// one per worker, but no more than there are indices.
pub open spec fn balanced_count(len: nat, workers: nat) -> nat {
    let w = if workers > 1 { workers } else { 1 };
    if w < len { w } else { len }
}

proof fn lemma_balanced_step(i: nat, base: nat, rem: nat, w: nat)
    requires
        i < w,
        rem < w,
    ensures
        (i + 1) * base + (if i + 1 < rem { i + 1 } else { rem }) == i * base + (if i < rem { i } else { rem }) + base + (if i < rem { 1nat } else { 0nat }),
{
    assert((i + 1) * base == i * base + base) by (nonlinear_arith);
}

/// Cuts `range` into one chunk per worker (at most one per index), sizes
/// differing by at most one.
pub fn balanced_chunk_ranges_for_workers(range: Range<usize>, workers: usize) -> (r: Vec<Range<usize>>)
    ensures
        balanced_chunks(
            r@,
            range.start as nat,
            (if range.end >= range.start { range.end - range.start } else { 0 }) as nat,
            balanced_count((if range.end >= range.start { range.end - range.start } else { 0 }) as nat, workers as nat),
        ),
{
    let len = if range.end >= range.start { range.end - range.start } else { 0 };
    let mut chunks: Vec<Range<usize>> = Vec::new();
    if len == 0 {
        return chunks;
    }
    let w0 = if workers > 1 { workers } else { 1 };
    let w = if w0 < len { w0 } else { len };
    let base = len / w;
    let remainder = len % w;
    proof {
        assert(w * base + remainder == len) by (nonlinear_arith) requires base == len / w, remainder == len % w, w > 0;
    }
    let mut chunk_start = range.start;
    let mut i: usize = 0;
    while i < w
        invariant
            0 < w <= len,
            len == range.end - range.start,
            base == len / w,
            remainder == len % w,
            w * base + remainder == len,
            i <= w,
            chunks@.len() == i,
            chunk_start == range.start + i * base + (if i < remainder { i as nat } else { remainder as nat }),
            i > 0 ==> chunks@[0].start == range.start && chunks@[i - 1].end == chunk_start,
            forall|k: int|
                0 <= k < i ==> (#[trigger] chunks@[k]).end - chunks@[k].start == base + (if k < remainder { 1int } else { 0int }),
            forall|k: int| 0 <= k < i - 1 ==> (#[trigger] chunks@[k]).end == chunks@[k + 1].start,
        decreases w - i,
    {
        proof {
            lemma_balanced_step(i as nat, base as nat, remainder as nat, w as nat);
            assert(i * base + (if i < remainder { i as nat } else { remainder as nat }) + base + (if i < remainder { 1nat } else { 0nat }) <= len) by {
                assert((i + 1) * base <= w * base) by (nonlinear_arith) requires i + 1 <= w;
            }
        }
        let chunk_len = base + if i < remainder { 1 } else { 0 };
        let chunk_end = chunk_start + chunk_len;
        let ghost before = chunks@;
        chunks.push(chunk_start..chunk_end);
        proof {
            assert forall|k: int| 0 <= k < i + 1 - 1 implies (#[trigger] chunks@[k]).end == chunks@[k + 1].start by {
                if k + 1 < before.len() {
                    assert(chunks@[k] == before[k]);
                    assert(chunks@[k + 1] == before[k + 1]);
                }
            }
            assert forall|k: int| 0 <= k < i + 1 implies (#[trigger] chunks@[k]).end - chunks@[k].start == base + (if k < remainder { 1int } else { 0int }) by {
                if k < before.len() {
                    assert(chunks@[k] == before[k]);
                }
            }
        }
        chunk_start = chunk_end;
        i = i + 1;
    }
    proof {
        assert(w * base + remainder == len);
    }
    chunks
}

/// Balanced chunks for the automatic size, fixed-size chunks otherwise.
pub fn chunk_ranges_aligned_to_workers(range: Range<usize>, options: ParallelForOptions, workers: usize) -> (r: Vec<Range<usize>>)
    requires
        options.chunk_size is Fixed ==> options.chunk_size->Fixed_0 > 0,
    ensures
        ({
            let len = (if range.end >= range.start { range.end - range.start } else { 0 }) as nat;
            match options.chunk_size {
                ChunkSize::Fixed(c) => fixed_chunks(r@, range.start as nat, range.end as nat, c as nat),
                ChunkSize::Auto => balanced_chunks(r@, range.start as nat, len, balanced_count(len, workers as nat)),
            }
        }),
{
    match options.chunk_size {
        ChunkSize::Fixed(_) => chunk_ranges_for_workers(range, options, workers),
        ChunkSize::Auto => balanced_chunk_ranges_for_workers(range, workers),
    }
}


proof fn lemma_fixed_chunks_ordered(chunks: Seq<Range<usize>>, start: nat, end: nat, size: nat, a: int, b: int)
    requires
        fixed_chunks(chunks, start, end, size),
        0 <= a < b < chunks.len(),
    ensures
        chunks[a].end <= chunks[b].start,
    decreases b - a,
{
    if a + 1 < b {
        lemma_fixed_chunks_ordered(chunks, start, end, size, a, b - 1);
        assert(chunks[b - 1].start < chunks[b - 1].end);
        assert(chunks[b - 1].end == chunks[b].start);
    } else {
        assert(chunks[a].end == chunks[a + 1].start);
    }
}

proof fn lemma_fixed_chunks_cover_prefix(chunks: Seq<Range<usize>>, start: nat, end: nat, size: nat, p: int, i: int)
    requires
        fixed_chunks(chunks, start, end, size),
        0 <= p < chunks.len(),
        start <= i < chunks[p].end,
    ensures
        exists|k: int| 0 <= k <= p && #[trigger] chunks[k].start <= i < chunks[k].end,
    decreases p,
{
    if i >= chunks[p].start {
        assert(chunks[p].start <= i < chunks[p].end);
    } else {
        assert(p > 0);
        assert(chunks[p - 1].end == chunks[p].start);
        lemma_fixed_chunks_cover_prefix(chunks, start, end, size, p - 1, i);
    }
}

/// The chunks of a parallel loop cut its range so that every index lies in
/// exactly one chunk: each index is visited once.
pub proof fn lemma_fixed_chunks_partition(chunks: Seq<Range<usize>>, start: nat, end: nat, size: nat, i: int)
    requires
        fixed_chunks(chunks, start, end, size),
        start <= i < end,
    ensures
        exists|k: int| 0 <= k < chunks.len() && #[trigger] chunks[k].start <= i < chunks[k].end,
        forall|k1: int, k2: int|
            0 <= k1 < chunks.len() && 0 <= k2 < chunks.len() && #[trigger] chunks[k1].start <= i < chunks[k1].end
                && #[trigger] chunks[k2].start <= i < chunks[k2].end ==> k1 == k2,
{
    let last = chunks.len() - 1;
    lemma_fixed_chunks_cover_prefix(chunks, start, end, size, last, i);
    assert forall|k1: int, k2: int|
        0 <= k1 < chunks.len() && 0 <= k2 < chunks.len() && #[trigger] chunks[k1].start <= i < chunks[k1].end
            && #[trigger] chunks[k2].start <= i < chunks[k2].end implies k1 == k2 by {
        if k1 < k2 {
            lemma_fixed_chunks_ordered(chunks, start, end, size, k1, k2);
        } else if k2 < k1 {
            lemma_fixed_chunks_ordered(chunks, start, end, size, k2, k1);
        }
    }
}


proof fn lemma_fixed_chunks_starts(chunks: Seq<Range<usize>>, start: nat, end: nat, size: nat, k: int)
    requires
        fixed_chunks(chunks, start, end, size),
        0 <= k < chunks.len(),
    ensures
        chunks[k].start == start + k * size,
        k < chunks.len() - 1 ==> chunks[k].end == chunks[k].start + size,
    decreases k,
{
    if k < chunks.len() - 1 {
        assert(chunks[k].end == chunks[k + 1].start);
        assert(chunks[k + 1].start < chunks[k + 1].end);
        assert(chunks[k + 1].end <= end);
    }
    if k > 0 {
        lemma_fixed_chunks_starts(chunks, start, end, size, k - 1);
        assert(chunks[k - 1].end == chunks[k].start);
        assert(start + (k - 1) * size + size == start + k * size) by (nonlinear_arith);
    } else {
        assert(k * size == 0) by (nonlinear_arith)
            requires
                k == 0,
        ;
    }
}

/// A range of `len > 0` indices cut into chunks of `size` gives `len / size`
/// chunks, rounded up.
pub proof fn lemma_fixed_chunks_count(chunks: Seq<Range<usize>>, start: nat, end: nat, size: nat)
    requires
        fixed_chunks(chunks, start, end, size),
        start < end,
        size > 0,
    ensures
        chunks.len() == div_ceil((end - start) as nat, size),
{
    let n = chunks.len() as int;
    assert(n > 0);
    lemma_fixed_chunks_starts(chunks, start, end, size, n - 1);
    let last = chunks[n - 1];
    assert(last.end == end);
    assert(last.start < last.end);
    assert(last.start + size >= end) by {
        if last.start + size < end {
            assert(last.end == last.start + size);
        }
    }
    let len = (end - start) as int;
    assert((n - 1) * size < len);
    assert(len <= n * size) by (nonlinear_arith)
        requires
            start + (n - 1) * size + size >= end,
            len == end - start,
    ;
    let q = len / size as int;
    let r = len % size as int;
    vstd::arithmetic::div_mod::lemma_fundamental_div_mod(len, size as int);
    vstd::arithmetic::div_mod::lemma_mod_pos_bound(len, size as int);
    if r == 0 {
        assert(n == q) by (nonlinear_arith)
            requires
                (n - 1) * size < len,
                len <= n * size,
                len == size * q,
                size > 0,
        ;
    } else {
        assert(n == q + 1) by (nonlinear_arith)
            requires
                (n - 1) * size < len,
                len <= n * size,
                len == size * q + r,
                0 < r < size,
        ;
    }
}

} // verus!
