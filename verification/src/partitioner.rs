use vstd::prelude::*;
use std::ops::Range;

verus! {

/// The shared claim position for partitioners that hand out work on demand.
pub struct PartitionState {
    next: usize,
    total: usize,
}

impl PartitionState {
    pub closed spec fn spec_next(&self) -> nat {
        self.next as nat
    }

    pub closed spec fn spec_total(&self) -> nat {
        self.total as nat
    }

    /// Nothing of `0..total` is claimed yet.
    pub fn new(total: usize) -> (r: Self)
        ensures
            r.spec_next() == 0,
            r.spec_total() == total,
    {
        PartitionState { next: 0, total }
    }

    pub fn total(&self) -> (r: usize)
        ensures
            r == self.spec_total(),
    {
        self.total
    }

    /// The first index not claimed yet (it may lie past the end).
    pub fn next(&self) -> (r: usize)
        ensures
            r == self.spec_next(),
    {
        self.next
    }
}

/// A way of handing out chunks of `0..total` to workers.
pub trait Partitioner {
    /// Claims the next chunk of work, or `None` once all of it is claimed.
    fn next_chunk(&mut self, state: &mut PartitionState) -> Option<Range<usize>>;
}

/// Hands out a fixed list of chunks, one per call, in order.
pub struct StaticPartitioner {
    chunks: Vec<Range<usize>>,
    next: usize,
}

impl StaticPartitioner {
    pub closed spec fn spec_chunks(&self) -> Seq<Range<usize>> {
        self.chunks@
    }

    pub closed spec fn spec_next(&self) -> nat {
        self.next as nat
    }

    pub fn new(chunks: Vec<Range<usize>>) -> (r: Self)
        ensures
            r.spec_chunks() == chunks@,
            r.spec_next() == 0,
    {
        StaticPartitioner { chunks, next: 0 }
    }
}

impl Partitioner for StaticPartitioner {
    /// The chunk at the claim position, which then moves on by one (wrapping, as
    /// an atomic counter does).
    fn next_chunk(&mut self, state: &mut PartitionState) -> (r: Option<Range<usize>>)
        ensures
            final(self).spec_chunks() == old(self).spec_chunks(),
            *final(state) == *old(state),
            final(self).spec_next() == (if old(self).spec_next() == usize::MAX { 0 } else { old(self).spec_next() + 1 }),
            old(self).spec_next() < old(self).spec_chunks().len() ==> r == Some(old(self).spec_chunks()[old(self).spec_next() as int]),
            old(self).spec_next() >= old(self).spec_chunks().len() ==> r is None,
    {
        let index = self.next;
        self.next = if index == usize::MAX { 0 } else { index + 1 };
        if index < self.chunks.len() {
            let c = &self.chunks[index];
            Some(c.start..c.end)
        } else {
            None
        }
    }
}

/// Hands out chunks of a fixed size from the shared claim position.
pub struct DynamicPartitioner {
    chunk_size: usize,
}

/// `a + b`, wrapping around as an atomic `fetch_add` does.
pub open spec fn add_wrapping(a: nat, b: nat) -> nat {
    if a + b > usize::MAX { (a + b - usize::MAX - 1) as nat } else { a + b }
}

/// One claim of a dynamic partitioner of chunk size `size` at claim
/// position `next`: the chunk it returns (cut at `total`, none from `total`
/// on) and the claim position it leaves, which always moves on.
pub open spec fn dynamic_step(next: nat, total: nat, size: nat) -> (Option<Range<usize>>, nat) {
    let chunk = if next >= total {
        None
    } else {
        Some(Range { start: next as usize, end: (if next + size < total { next + size } else { total }) as usize })
    };
    (chunk, add_wrapping(next, size))
}

impl DynamicPartitioner {
    pub closed spec fn spec_chunk_size(&self) -> nat {
        self.chunk_size as nat
    }

    pub fn new(chunk_size: usize) -> (r: Self)
        ensures
            r.spec_chunk_size() == chunk_size,
    {
        DynamicPartitioner { chunk_size }
    }
}

impl Partitioner for DynamicPartitioner {
    /// Claims `chunk_size` indices at the claim position (the position always
    /// moves on); the chunk is cut at the end, and there is none past it.
    fn next_chunk(&mut self, state: &mut PartitionState) -> (r: Option<Range<usize>>)
        ensures
            *final(self) == *old(self),
            final(state).spec_total() == old(state).spec_total(),
            (r, final(state).spec_next()) == dynamic_step(old(state).spec_next(), old(state).spec_total(), old(self).spec_chunk_size()),
    {
        let start = state.next;
        state.next = start.wrapping_add(self.chunk_size);
        if start >= state.total {
            return None;
        }
        let end = if self.chunk_size < state.total - start {
            start + self.chunk_size
        } else {
            state.total
        };
        Some(start..end)
    }
}

/// Hands out chunks of half the remaining work, but never fewer than a minimum
/// (nor more than what remains).
pub struct GuidedPartitioner {
    min_chunk_size: usize,
}

/// The size of the next guided chunk: half of what remains, at least the
/// minimum, at most what remains.
pub open spec fn guided_chunk(remaining: nat, min_chunk: nat) -> nat {
    let half = remaining / 2;
    let c = if half > min_chunk { half } else { min_chunk };
    if c < remaining { c } else { remaining }
}

/// One claim of a guided partitioner of minimum chunk size `min_chunk` at
/// claim position `next`: the chunk it returns (none from `total` on, and
/// the position then stays) and the claim position it leaves.
pub open spec fn guided_step(next: nat, total: nat, min_chunk: nat) -> (Option<Range<usize>>, nat) {
    if next >= total {
        (None, next)
    } else {
        let c = guided_chunk((total - next) as nat, min_chunk);
        (Some(Range { start: next as usize, end: (next + c) as usize }), next + c)
    }
}

impl GuidedPartitioner {
    pub closed spec fn spec_min_chunk_size(&self) -> nat {
        self.min_chunk_size as nat
    }

    pub fn new(min_chunk_size: usize) -> (r: Self)
        ensures
            r.spec_min_chunk_size() == min_chunk_size,
    {
        GuidedPartitioner { min_chunk_size }
    }

    /// The claim step on its own terms; a claim position past the end is refused.
    pub fn claim(&self, state: &mut PartitionState) -> (r: Option<Range<usize>>)
        requires
            old(state).spec_next() <= old(state).spec_total(),
        ensures
            final(state).spec_total() == old(state).spec_total(),
            final(state).spec_next() <= final(state).spec_total(),
            old(state).spec_next() == old(state).spec_total() ==> r is None && *final(state) == *old(state),
            old(state).spec_next() < old(state).spec_total() ==> {
                let c = guided_chunk((old(state).spec_total() - old(state).spec_next()) as nat, self.spec_min_chunk_size());
                &&& final(state).spec_next() == old(state).spec_next() + c
                &&& r == Some(Range { start: old(state).spec_next() as usize, end: (old(state).spec_next() + c) as usize })
            },
    {
        let remaining = state.total - state.next;
        if remaining == 0 {
            return None;
        }
        let half = remaining / 2;
        let c = if half > self.min_chunk_size { half } else { self.min_chunk_size };
        let chunk_size = if c < remaining { c } else { remaining };
        let start = state.next;
        state.next = start + chunk_size;
        Some(start..start + chunk_size)
    }
}

impl Partitioner for GuidedPartitioner {
    /// As `claim`; a claim position past the end (left there by another
    /// partitioner) yields no chunk.
    fn next_chunk(&mut self, state: &mut PartitionState) -> (r: Option<Range<usize>>)
        ensures
            *final(self) == *old(self),
            final(state).spec_total() == old(state).spec_total(),
            (r, final(state).spec_next()) == guided_step(old(state).spec_next(), old(state).spec_total(), old(self).spec_min_chunk_size()),
    {
        if state.next >= state.total {
            return None;
        }
        self.claim(state)
    }
}

/// Law: a guided claim takes at least one index while work remains (given a
/// positive minimum, or at least two indices left), so claiming until `None`
/// covers `0..total` and stops.
pub proof fn lemma_guided_progress(remaining: nat, min_chunk: nat)
    requires
        remaining > 0,
        min_chunk > 0 || remaining >= 2,
    ensures
        0 < guided_chunk(remaining, min_chunk) <= remaining,
{
}

/// The chunks that claiming with a dynamic partitioner of chunk size `size`
/// hands out, one call after another, from claim position `p` until `None`
/// (as `next_chunk` states each claim, positions not wrapping around).
pub open spec fn dynamic_chunks_from(p: nat, total: nat, size: nat) -> Seq<Range<usize>>
    decreases total - p,
{
    if p >= total || size == 0 {
        Seq::empty()
    } else {
        if p + size < total {
            seq![Range { start: p as usize, end: (p + size) as usize }] + dynamic_chunks_from(p + size, total, size)
        } else {
            seq![Range { start: p as usize, end: total as usize }]
        }
    }
}

/// The chunks that claiming with a guided partitioner of minimum chunk size
/// `min_chunk` hands out, one call after another, from claim position `p`
/// until `None` (as `next_chunk` states each claim).
pub open spec fn guided_chunks_from(p: nat, total: nat, min_chunk: nat) -> Seq<Range<usize>>
    decreases total - p,
{
    if p >= total || min_chunk == 0 {
        Seq::empty()
    } else {
        let c = guided_chunk((total - p) as nat, min_chunk);
        seq![Range { start: p as usize, end: (p + c) as usize }] + guided_chunks_from(p + c, total, min_chunk)
    }
}

/// The chunks `cs` are non-empty and cut `p..total` into consecutive pieces.
pub open spec fn tiles(cs: Seq<Range<usize>>, p: nat, total: nat) -> bool {
    &&& cs.len() > 0 ==> cs[0].start == p && cs.last().end == total
    &&& cs.len() == 0 ==> p == total
    &&& forall|k: int| 0 <= k < cs.len() ==> (#[trigger] cs[k]).start < cs[k].end <= total
    &&& forall|k: int| 0 <= k < cs.len() - 1 ==> (#[trigger] cs[k]).end == cs[k + 1].start
}

/// Law: a dynamic partitioner with a positive chunk size, claimed from a
/// fresh state until `None`, hands out ⌈total / size⌉ chunks that cover
/// `0..total` exactly, each of `size` indices but a shorter last one.
pub proof fn lemma_dynamic_claims_cover(p: nat, total: nat, size: nat)
    requires
        size > 0,
        p <= total,
        total <= usize::MAX,
    ensures
        tiles(dynamic_chunks_from(p, total, size), p, total),
        dynamic_chunks_from(p, total, size).len() == ((total - p) + size - 1) / size as int,
        forall|k: int| 0 <= k < dynamic_chunks_from(p, total, size).len() - 1
            ==> (#[trigger] dynamic_chunks_from(p, total, size)[k]).end - dynamic_chunks_from(p, total, size)[k].start == size,
    decreases total - p,
{
    let cs = dynamic_chunks_from(p, total, size);
    if p < total {
        let end = if p + size < total { p + size } else { total };
        let head = Range { start: p as usize, end: end as usize };
        if p + size < total {
            lemma_dynamic_claims_cover(p + size, total, size);
            let rest = dynamic_chunks_from(p + size, total, size);
            assert(cs == seq![head] + rest);
            assert forall|k: int| 0 <= k < cs.len() implies (#[trigger] cs[k]).start < cs[k].end <= total by {
                if k > 0 {
                    assert(cs[k] == rest[k - 1]);
                }
            }
            assert forall|k: int| 0 <= k < cs.len() - 1 implies (#[trigger] cs[k]).end == cs[k + 1].start by {
                assert(cs[k + 1] == rest[k]);
                if k > 0 {
                    assert(cs[k] == rest[k - 1]);
                }
            }
            assert forall|k: int| 0 <= k < cs.len() - 1 implies (#[trigger] cs[k]).end - cs[k].start == size by {
                if k > 0 {
                    assert(cs[k] == rest[k - 1]);
                }
            }
            assert(cs.last() == rest.last());
            assert(((total - p) + size - 1) / size as int == ((total - (p + size)) + size - 1) / size as int + 1) by {
                let a = (total - (p + size)) + size - 1;
                assert((a + size) / (size as int) == a / (size as int) + 1) by (nonlinear_arith)
                    requires size > 0, a >= 0;
            }
        } else {
            assert(cs =~= seq![head]);
            assert(((total - p) + size - 1) / size as int == 1) by (nonlinear_arith)
                requires size > 0, 0 < total - p <= size;
        }
    } else {
        assert(((total - p) + size - 1) / size as int == 0) by (nonlinear_arith)
            requires size > 0, total - p == 0;
    }
}

/// Law: a guided partitioner with a positive minimum chunk size, claimed
/// from a fresh state until `None`, hands out non-empty chunks that cover
/// `0..total` exactly, in order, and at most `total` of them.
pub proof fn lemma_guided_claims_cover(p: nat, total: nat, min_chunk: nat)
    requires
        min_chunk > 0,
        p <= total,
        total <= usize::MAX,
    ensures
        tiles(guided_chunks_from(p, total, min_chunk), p, total),
        guided_chunks_from(p, total, min_chunk).len() <= total - p,
    decreases total - p,
{
    let cs = guided_chunks_from(p, total, min_chunk);
    if p < total {
        let c = guided_chunk((total - p) as nat, min_chunk);
        lemma_guided_progress((total - p) as nat, min_chunk);
        lemma_guided_claims_cover(p + c, total, min_chunk);
        let head = Range { start: p as usize, end: (p + c) as usize };
        let rest = guided_chunks_from(p + c, total, min_chunk);
        assert(cs == seq![head] + rest);
        assert forall|k: int| 0 <= k < cs.len() implies (#[trigger] cs[k]).start < cs[k].end <= total by {
            if k > 0 {
                assert(cs[k] == rest[k - 1]);
            }
        }
        assert forall|k: int| 0 <= k < cs.len() - 1 implies (#[trigger] cs[k]).end == cs[k + 1].start by {
            assert(cs[k + 1] == rest[k]);
            if k > 0 {
                assert(cs[k] == rest[k - 1]);
            }
        }
        if rest.len() > 0 {
            assert(cs.last() == rest.last());
        }
    }
}

/// The chunks that a claim loop receives, calling `next_chunk` (whose step
/// is `dynamic_step` or `guided_step` with its partitioner's size, as
/// `dynamic` picks) from claim position `p` until the first `None`; a claim
/// that leaves the position at or past the end is the last.
pub open spec fn claim_loop(dynamic: bool, p: nat, total: nat, size: nat) -> Seq<Range<usize>>
    decreases total - p,
{
    let step = if dynamic { dynamic_step(p, total, size) } else { guided_step(p, total, size) };
    match step.0 {
        None => Seq::empty(),
        Some(chunk) => if p < step.1 && step.1 < total {
            seq![chunk] + claim_loop(dynamic, step.1, total, size)
        } else {
            seq![chunk]
        },
    }
}

/// Law: a loop that calls a dynamic partitioner's `next_chunk` from claim
/// position `p` until `None`, with a positive chunk size and positions that
/// cannot wrap around, receives exactly `dynamic_chunks_from(p, ..)`: the
/// chunks that `lemma_dynamic_claims_cover` shows to tile `p..total`.
pub proof fn lemma_dynamic_claim_loop(p: nat, total: nat, size: nat)
    requires
        size > 0,
        total + size <= usize::MAX,
    ensures
        claim_loop(true, p, total, size) == dynamic_chunks_from(p, total, size),
    decreases total - p,
{
    if p < total {
        assert(add_wrapping(p, size) == p + size);
        if p + size < total {
            lemma_dynamic_claim_loop(p + size, total, size);
        }
    }
}

/// Law: a loop that calls a guided partitioner's `next_chunk` from claim
/// position `p` until `None`, with a positive minimum chunk size, receives
/// exactly `guided_chunks_from(p, ..)`: the chunks that
/// `lemma_guided_claims_cover` shows to tile `p..total`.
pub proof fn lemma_guided_claim_loop(p: nat, total: nat, min_chunk: nat)
    requires
        min_chunk > 0,
    ensures
        claim_loop(false, p, total, min_chunk) == guided_chunks_from(p, total, min_chunk),
    decreases total - p,
{
    if p < total {
        let c = guided_chunk((total - p) as nat, min_chunk);
        lemma_guided_progress((total - p) as nat, min_chunk);
        lemma_guided_claim_loop(p + c, total, min_chunk);
        if p + c == total {
            assert(guided_chunks_from(p + c, total, min_chunk) =~= Seq::<Range<usize>>::empty());
        }
    }
}

} // verus!
