use vstd::prelude::*;
use std::ops::Range;
use crate::parallel_for::{
    ParallelForOptions, balanced_chunks, balanced_count, balanced_chunk_ranges_for_workers,
    chunk_ranges_for_workers, fixed_chunks, spec_resolve_chunk_size, mul_saturating,
};
use crate::scan::{
    op_ok, ap, associative, fold, apply, contiguous_blocks, segment, inclusive_block_sums,
    lemma_balanced_contiguous, lemma_fold_push, lemma_fold_join, lemma_block_within, lemma_fold_concat,
};

verus! {

/// Per-worker input size up to which a reduction runs sequentially.
pub const REDUCE_SEQUENTIAL_CUTOFF_PER_WORKER: usize = 8192;
/// Per-worker input size up to which a transform runs sequentially.
pub const TRANSFORM_SEQUENTIAL_CUTOFF_PER_WORKER: usize = 8192;

/// `workers * per_worker` (at least one worker), saturating.
pub fn sequential_cutoff(workers: usize, per_worker: usize) -> (r: usize)
    ensures
        r == mul_saturating(if workers > 1 { workers as nat } else { 1 }, per_worker as nat),
{
    let w = if workers > 1 { workers } else { 1 };
    if per_worker != 0 && w > usize::MAX / per_worker {
        proof {
            assert(w * per_worker > usize::MAX) by (nonlinear_arith)
                requires w > usize::MAX / per_worker, per_worker > 0;
        }
        usize::MAX
    } else {
        proof {
            if per_worker != 0 {
                assert(w * per_worker <= usize::MAX) by (nonlinear_arith)
                    requires w <= usize::MAX / per_worker, per_worker > 0;
            }
        }
        w * per_worker
    }
}

/// Folds `input[start..end]` (non-empty) starting from its first element.
pub fn reduce_range<T: Copy, F: Fn(T, T) -> T>(input: &[T], start: usize, end: usize, op: &F) -> (r: T)
    requires
        op_ok::<T, F>(*op),
        start < end <= input@.len(),
    ensures
        r == fold(*op, input@[start as int], input@.subrange(start + 1, end as int)),
{
    let mut acc = input[start];
    let mut i = start + 1;
    proof {
        assert(input@.subrange(start + 1, start + 1) =~= Seq::<T>::empty());
    }
    while i < end
        invariant
            op_ok::<T, F>(*op),
            start < i <= end <= input@.len(),
            acc == fold(*op, input@[start as int], input@.subrange(start + 1, i as int)),
        decreases end - i,
    {
        proof {
            assert(input@.subrange(start + 1, i + 1) =~= input@.subrange(start + 1, i as int).push(input@[i as int]));
            lemma_fold_push(*op, input@[start as int], input@.subrange(start + 1, i as int), input@[i as int]);
        }
        acc = apply(op, acc, input[i]);
        i = i + 1;
    }
    acc
}

/// Folds `values` into `acc`.
pub fn fold_into<T: Copy, F: Fn(T, T) -> T>(acc: T, values: &Vec<T>, op: &F) -> (r: T)
    requires
        op_ok::<T, F>(*op),
    ensures
        r == fold(*op, acc, values@),
{
    let mut result = acc;
    let mut i: usize = 0;
    proof {
        assert(values@.subrange(0, 0) =~= Seq::<T>::empty());
    }
    while i < values.len()
        invariant
            op_ok::<T, F>(*op),
            i <= values@.len(),
            result == fold(*op, acc, values@.subrange(0, i as int)),
        decreases values@.len() - i,
    {
        proof {
            assert(values@.subrange(0, i + 1) =~= values@.subrange(0, i as int).push(values@[i as int]));
            lemma_fold_push(*op, acc, values@.subrange(0, i as int), values@[i as int]);
        }
        result = apply(op, result, values[i]);
        i = i + 1;
    }
    proof {
        assert(values@.subrange(0, values@.len() as int) =~= values@);
    }
    result
}

/// The fold of each block, in block order.
pub fn reduce_blocks<T: Copy, F: Fn(T, T) -> T>(input: &[T], blocks: &Vec<Range<usize>>, op: &F) -> (r: Vec<T>)
    requires
        op_ok::<T, F>(*op),
        contiguous_blocks(blocks@, input@.len()),
    ensures
        r@ == inclusive_block_sums(input@, blocks@, *op),
{
    let nb = blocks.len();
    let mut partials: Vec<T> = Vec::new();
    let mut k: usize = 0;
    while k < nb
        invariant
            op_ok::<T, F>(*op),
            nb == blocks@.len(),
            contiguous_blocks(blocks@, input@.len()),
            k <= nb,
            partials@.len() == k,
            forall|j: int| 0 <= j < k ==> #[trigger] partials@[j] == inclusive_block_sums(input@, blocks@, *op)[j],
        decreases nb - k,
    {
        let b = &blocks[k];
        proof {
            lemma_block_within(blocks@, input@.len(), k as int);
            assert(blocks@[k as int].start < blocks@[k as int].end);
        }
        let p = reduce_range(input, b.start, b.end, op);
        proof {
            let seg = segment(input@, blocks@[k as int]);
            assert(seg.subrange(1, seg.len() as int) =~= input@.subrange(b.start + 1, b.end as int));
            assert(seg[0] == input@[b.start as int]);
        }
        partials.push(p);
        k = k + 1;
    }
    proof {
        assert(partials@ =~= inclusive_block_sums(input@, blocks@, *op));
    }
    partials
}

/// With an associative operator, folding the block totals into `init` is
/// folding the whole input into `init`.
pub proof fn lemma_reduce_blocks_matches<T, F: Fn(T, T) -> T>(s: Seq<T>, blocks: Seq<Range<usize>>, init: T, op: F, k: int)
    requires
        associative(op),
        contiguous_blocks(blocks, s.len()),
        0 <= k <= blocks.len(),
    ensures
        fold(op, init, inclusive_block_sums(s, blocks, op).subrange(0, k)) == fold(op, init, s.subrange(0, if k == 0 { 0 } else { blocks[k - 1].end as int })),
    decreases k,
{
    let sums = inclusive_block_sums(s, blocks, op);
    if k == 0 {
        assert(sums.subrange(0, 0) =~= Seq::<T>::empty());
        assert(s.subrange(0, 0) =~= Seq::<T>::empty());
    } else {
        lemma_reduce_blocks_matches(s, blocks, init, op, k - 1);
        lemma_block_within(blocks, s.len(), k - 1);
        let b = blocks[k - 1];
        assert(b.start < b.end);
        let seg = segment(s, b);
        assert(sums[k - 1] == fold(op, s[b.start as int], s.subrange(b.start + 1, b.end as int))) by {
            assert(seg.subrange(1, seg.len() as int) =~= s.subrange(b.start + 1, b.end as int));
        }
        assert(sums.subrange(0, k) =~= sums.subrange(0, k - 1).push(sums[k - 1]));
        lemma_fold_push(op, init, sums.subrange(0, k - 1), sums[k - 1]);
        assert(b.start as int == (if k - 1 == 0 { 0 } else { blocks[k - 2].end as int }));
        lemma_fold_join(op, init, s.subrange(0, b.start as int), s[b.start as int], s.subrange(b.start + 1, b.end as int));
        assert(s.subrange(0, b.start as int).push(s[b.start as int]) + s.subrange(b.start + 1, b.end as int) =~= s.subrange(0, b.end as int));
    }
}

/// Reduction of `input` into `init` as the workers of a parallel reduction
/// compute it: short inputs fold sequentially and then into `init`; longer
/// ones fold one balanced block per worker and then fold the block results
/// into `init`.  The result is the plain fold whenever the operator is
/// associative.
pub fn parallel_reduce<T: Copy, F: Fn(T, T) -> T>(input: &[T], workers: usize, init: T, op: &F) -> (r: T)
    requires
        op_ok::<T, F>(*op),
    ensures
        input@.len() == 0 ==> r == init,
        0 < input@.len() <= mul_saturating(if workers > 1 { workers as nat } else { 1 }, REDUCE_SEQUENTIAL_CUTOFF_PER_WORKER as nat)
            ==> r == ap(*op, init, fold(*op, input@[0], input@.subrange(1, input@.len() as int))),
        input@.len() > mul_saturating(if workers > 1 { workers as nat } else { 1 }, REDUCE_SEQUENTIAL_CUTOFF_PER_WORKER as nat)
            ==> exists|b: Seq<Range<usize>>| {
                &&& #[trigger] balanced_chunks(b, 0, input@.len(), balanced_count(input@.len(), workers as nat))
                &&& r == fold(*op, init, inclusive_block_sums(input@, b, *op))
            },
        associative(*op) ==> r == fold(*op, init, input@),
{
    let n = input.len();
    if n == 0 {
        return init;
    }
    if n <= sequential_cutoff(workers, REDUCE_SEQUENTIAL_CUTOFF_PER_WORKER) {
        let partial = reduce_range(input, 0, n, op);
        let r = apply(op, init, partial);
        proof {
            if associative(*op) {
                lemma_fold_join(*op, init, Seq::<T>::empty(), input@[0], input@.subrange(1, n as int));
                lemma_fold_push(*op, init, Seq::<T>::empty(), input@[0]);
                assert(Seq::<T>::empty().push(input@[0]) + input@.subrange(1, n as int) =~= input@);
                assert(fold(*op, init, Seq::<T>::empty()) == init);
            }
        }
        return r;
    }
    let blocks = balanced_chunk_ranges_for_workers(0..n, workers);
    proof {
        lemma_balanced_contiguous(blocks@, n as nat, balanced_count(n as nat, workers as nat));
    }
    let partials = reduce_blocks(input, &blocks, op);
    let r = fold_into(init, &partials, op);
    proof {
        if associative(*op) {
            lemma_reduce_blocks_matches(input@, blocks@, init, *op, blocks@.len() as int);
            assert(partials@.subrange(0, blocks@.len() as int) =~= partials@);
            lemma_block_within(blocks@, n as nat, blocks@.len() - 1);
            assert(input@.subrange(0, n as int) =~= input@);
        }
        assert(balanced_chunks(blocks@, 0, input@.len(), balanced_count(input@.len(), workers as nat)));
    }
    r
}

/// One worker's share of a dynamically partitioned reduction: the chunk is
/// folded and then folded into what the worker already holds.
pub fn accumulate_chunk<T: Copy, F: Fn(T, T) -> T>(slot: Option<T>, input: &[T], chunk: Range<usize>, op: &F) -> (r: Option<T>)
    requires
        op_ok::<T, F>(*op),
        chunk.start <= chunk.end <= input@.len(),
    ensures
        chunk.start == chunk.end ==> r == slot,
        chunk.start < chunk.end ==> {
            let acc = fold(*op, input@[chunk.start as int], input@.subrange(chunk.start + 1, chunk.end as int));
            r == Some(match slot { Some(existing) => ap(*op, existing, acc), None => acc })
        },
{
    if chunk.start >= chunk.end {
        return slot;
    }
    let acc = reduce_range(input, chunk.start, chunk.end, op);
    match slot {
        Some(existing) => Some(apply(op, existing, acc)),
        None => Some(acc),
    }
}

/// Folds every worker's partial result, in worker order, into `init`;
/// workers that claimed nothing are skipped.
pub fn combine_partials<T: Copy, F: Fn(T, T) -> T>(init: T, partials: &Vec<Option<T>>, op: &F) -> (r: T)
    requires
        op_ok::<T, F>(*op),
    ensures
        r == fold(*op, init, present(partials@)),
{
    let mut result = init;
    let mut i: usize = 0;
    proof {
        assert(partials@.subrange(0, 0) =~= Seq::<Option<T>>::empty());
        assert(present(Seq::<Option<T>>::empty()) =~= Seq::<T>::empty());
    }
    while i < partials.len()
        invariant
            op_ok::<T, F>(*op),
            i <= partials@.len(),
            result == fold(*op, init, present(partials@.subrange(0, i as int))),
        decreases partials@.len() - i,
    {
        proof {
            assert(partials@.subrange(0, i + 1).drop_last() =~= partials@.subrange(0, i as int));
        }
        match partials[i] {
            Some(p) => {
                proof {
                    lemma_fold_push(*op, init, present(partials@.subrange(0, i as int)), p);
                }
                result = apply(op, result, p);
            },
            None => {},
        }
        i = i + 1;
    }
    proof {
        assert(partials@.subrange(0, partials@.len() as int) =~= partials@);
    }
    result
}

/// The values present in `s`, in order.
pub open spec fn present<T>(s: Seq<Option<T>>) -> Seq<T>
    decreases s.len(),
{
    if s.len() == 0 {
        Seq::empty()
    } else {
        let rest = present(s.drop_last());
        match s.last() {
            Some(v) => rest.push(v),
            None => rest,
        }
    }
}

/// `op` is commutative.
pub open spec fn commutative<T, F: Fn(T, T) -> T>(op: F) -> bool {
    forall|a: T, b: T| #[trigger] ap(op, a, b) == ap(op, b, a)
}

/// What a worker of a dynamic reduction holds after it accumulated the
/// values `p`: nothing when it claimed nothing, else the fold of `p`.
pub open spec fn partial_of<T, F: Fn(T, T) -> T>(op: F, p: Seq<T>) -> Option<T> {
    if p.len() == 0 {
        None
    } else {
        Some(fold(op, p[0], p.subrange(1, p.len() as int)))
    }
}

/// The values of `parts`, one part after the other.
pub open spec fn flatten<T>(parts: Seq<Seq<T>>) -> Seq<T>
    decreases parts.len(),
{
    if parts.len() == 0 {
        Seq::empty()
    } else {
        flatten(parts.drop_last()) + parts.last()
    }
}

/// Accumulating a non-empty chunk `c` into what a worker holds after the
/// values `p` leaves it holding what it would after the values `p + c`: with
/// an associative operator, `accumulate_chunk` keeps `partial_of` of all the
/// values the worker claimed, in the order it claimed them.
pub proof fn lemma_accumulate_extends<T, F: Fn(T, T) -> T>(op: F, p: Seq<T>, c: Seq<T>)
    requires
        associative(op),
        c.len() > 0,
    ensures
        Some(match partial_of(op, p) {
            Some(existing) => ap(op, existing, fold(op, c[0], c.subrange(1, c.len() as int))),
            None => fold(op, c[0], c.subrange(1, c.len() as int)),
        }) == partial_of(op, p + c),
{
    let pc = p + c;
    if p.len() == 0 {
        assert(pc =~= c);
    } else {
        lemma_fold_join(op, p[0], p.subrange(1, p.len() as int), c[0], c.subrange(1, c.len() as int));
        assert(p.subrange(1, p.len() as int).push(c[0]) + c.subrange(1, c.len() as int) =~= pc.subrange(1, pc.len() as int));
        assert(pc[0] == p[0]);
    }
}

proof fn lemma_fold_partials<T, F: Fn(T, T) -> T>(op: F, init: T, parts: Seq<Seq<T>>)
    requires
        associative(op),
    ensures
        fold(op, init, present(parts.map_values(|q: Seq<T>| partial_of(op, q)))) == fold(op, init, flatten(parts)),
    decreases parts.len(),
{
    let f = |q: Seq<T>| partial_of(op, q);
    if parts.len() == 0 {
        assert(parts.map_values(f) =~= Seq::<Option<T>>::empty());
    } else {
        let rest = parts.drop_last();
        let q = parts.last();
        lemma_fold_partials(op, init, rest);
        assert(parts.map_values(f).drop_last() =~= rest.map_values(f));
        assert(parts.map_values(f).last() == partial_of(op, q));
        lemma_fold_concat(op, init, flatten(rest), q);
        if q.len() == 0 {
            assert(flatten(rest) + q =~= flatten(rest));
        } else {
            let a = fold(op, init, flatten(rest));
            lemma_fold_push(op, init, present(rest.map_values(f)), fold(op, q[0], q.subrange(1, q.len() as int)));
            lemma_fold_join(op, a, Seq::<T>::empty(), q[0], q.subrange(1, q.len() as int));
            assert(Seq::<T>::empty().push(q[0]) + q.subrange(1, q.len() as int) =~= q);
            assert(fold(op, a, Seq::<T>::empty()) == a);
        }
    }
}

proof fn lemma_fold_pull_out<T, F: Fn(T, T) -> T>(op: F, a: T, x: T, v: Seq<T>)
    requires
        associative(op),
        commutative(op),
    ensures
        fold(op, ap(op, a, x), v) == ap(op, fold(op, a, v), x),
    decreases v.len(),
{
    if v.len() > 0 {
        lemma_fold_pull_out(op, a, x, v.drop_last());
        let b = fold(op, a, v.drop_last());
        let y = v.last();
        assert(ap(op, ap(op, b, x), y) == ap(op, b, ap(op, x, y)));
        assert(ap(op, x, y) == ap(op, y, x));
        assert(ap(op, ap(op, b, y), x) == ap(op, b, ap(op, y, x)));
    }
}

/// With an associative and commutative operator, folding a permutation of
/// `b` gives what folding `b` gives.
pub proof fn lemma_fold_permutation<T, F: Fn(T, T) -> T>(op: F, init: T, a: Seq<T>, b: Seq<T>)
    requires
        associative(op),
        commutative(op),
        a.to_multiset() == b.to_multiset(),
    ensures
        fold(op, init, a) == fold(op, init, b),
    decreases b.len(),
{
    broadcast use vstd::seq_lib::group_to_multiset_ensures;
    broadcast use vstd::multiset::group_multiset_axioms;
    if b.len() == 0 {
        assert(b.to_multiset().len() == b.len());
        assert(a.to_multiset().len() == a.len());
        assert(a =~= b);
    } else {
        let x = b.last();
        let bd = b.drop_last();
        assert(bd.push(x) =~= b);
        assert(b.to_multiset().count(x) > 0);
        assert(a.contains(x));
        let i = choose|i: int| 0 <= i < a.len() && a[i] == x;
        let u = a.subrange(0, i);
        let v = a.subrange(i + 1, a.len() as int);
        let ad = a.remove(i);
        assert(ad =~= u + v);
        assert(a =~= u.push(x) + v);
        assert(ad.to_multiset() =~= bd.to_multiset()) by {
            assert(ad.to_multiset() == a.to_multiset().remove(x));
            assert(b.to_multiset() == bd.to_multiset().insert(x));
        }
        lemma_fold_permutation(op, init, ad, bd);
        lemma_fold_concat(op, init, u.push(x), v);
        lemma_fold_push(op, init, u, x);
        lemma_fold_pull_out(op, fold(op, init, u), x, v);
        lemma_fold_concat(op, init, u, v);
        lemma_fold_push(op, init, bd, x);
    }
}

/// The result of a dynamically partitioned reduction does not depend on how
/// the chunks were claimed: when the values the workers accumulated, taken
/// together, are the input values (each exactly once), combining the
/// workers' partial results into `init` gives the fold of the whole input
/// into `init`, for an associative and commutative operator.
pub proof fn lemma_dynamic_reduce<T, F: Fn(T, T) -> T>(op: F, init: T, input: Seq<T>, parts: Seq<Seq<T>>)
    requires
        associative(op),
        commutative(op),
        flatten(parts).to_multiset() == input.to_multiset(),
    ensures
        fold(op, init, present(parts.map_values(|q: Seq<T>| partial_of(op, q)))) == fold(op, init, input),
{
    lemma_fold_partials(op, init, parts);
    lemma_fold_permutation(op, init, flatten(parts), input);
}

/// `f` can be applied to every element.
pub open spec fn map_ok<T, U, F: Fn(&T) -> U>(f: F) -> bool {
    forall|x: &T| #[trigger] call_requires(f, (x,))
}

/// Applies `transform` to `input[start..end]`.
pub fn transform_range<T, U, F: Fn(&T) -> U>(input: &[T], start: usize, end: usize, transform: &F) -> (r: Vec<U>)
    requires
        map_ok::<T, U, F>(*transform),
        start <= end <= input@.len(),
    ensures
        r@.len() == end - start,
        forall|i: int| 0 <= i < end - start ==> call_ensures(*transform, (&input@[start + i],), #[trigger] r@[i]),
{
    let mut output: Vec<U> = Vec::new();
    let mut i = start;
    while i < end
        invariant
            map_ok::<T, U, F>(*transform),
            start <= i <= end <= input@.len(),
            output@.len() == i - start,
            forall|j: int| 0 <= j < i - start ==> call_ensures(*transform, (&input@[start + j],), #[trigger] output@[j]),
        decreases end - i,
    {
        let v = transform(&input[i]);
        output.push(v);
        i = i + 1;
    }
    output
}

/// Transform as the workers of a parallel transform compute it: every output
/// element is `transform` applied to the input element at the same place.
/// Short inputs are mapped in one pass, longer ones one balanced block per
/// worker; the result is the same either way.
pub fn parallel_transform<T, U, F: Fn(&T) -> U>(input: &[T], workers: usize, transform: &F) -> (r: Vec<U>)
    requires
        map_ok::<T, U, F>(*transform),
    ensures
        r@.len() == input@.len(),
        forall|i: int| 0 <= i < input@.len() ==> call_ensures(*transform, (&input@[i],), #[trigger] r@[i]),
{
    let n = input.len();
    if n <= sequential_cutoff(workers, TRANSFORM_SEQUENTIAL_CUTOFF_PER_WORKER) {
        return transform_range(input, 0, n, transform);
    }
    let blocks = balanced_chunk_ranges_for_workers(0..n, workers);
    proof {
        lemma_balanced_contiguous(blocks@, n as nat, balanced_count(n as nat, workers as nat));
    }
    let nb = blocks.len();
    let mut output: Vec<U> = Vec::new();
    let mut k: usize = 0;
    proof {
        lemma_block_within(blocks@, n as nat, 0);
    }
    while k < nb
        invariant
            map_ok::<T, U, F>(*transform),
            nb == blocks@.len(),
            n == input@.len(),
            contiguous_blocks(blocks@, n as nat),
            k <= nb,
            output@.len() == (if k == 0 { 0 } else { blocks@[k - 1].end as int }),
            forall|i: int| 0 <= i < output@.len() ==> call_ensures(*transform, (&input@[i],), #[trigger] output@[i]),
        decreases nb - k,
    {
        let b = &blocks[k];
        proof {
            lemma_block_within(blocks@, n as nat, k as int);
            assert(blocks@[k as int].start < blocks@[k as int].end);
        }
        let mut part = transform_range(input, b.start, b.end, transform);
        let ghost before = output@;
        let ghost p = part@;
        output.append(&mut part);
        proof {
            assert forall|i: int| 0 <= i < output@.len() implies call_ensures(*transform, (&input@[i],), #[trigger] output@[i]) by {
                if i >= before.len() {
                    assert(output@[i] == p[i - before.len()]);
                    assert(b.start == before.len());
                } else {
                    assert(output@[i] == before[i]);
                }
            }
        }
        k = k + 1;
    }
    proof {
        lemma_block_within(blocks@, n as nat, nb - 1);
    }
    output
}

/// `pred` can be asked about any element and always answers the same way.
pub open spec fn pred_ok<T, P: Fn(&T) -> bool>(pred: P) -> bool {
    &&& forall|x: &T| #[trigger] call_requires(pred, (x,))
    &&& forall|x: &T, r1: bool, r2: bool|
        #![trigger call_ensures(pred, (x,), r1), call_ensures(pred, (x,), r2)]
        call_ensures(pred, (x,), r1) && call_ensures(pred, (x,), r2) ==> r1 == r2
}

/// `pred` holds of `x`.
pub open spec fn holds<T, P: Fn(&T) -> bool>(pred: P, x: T) -> bool {
    call_ensures(pred, (&x,), true)
}

/// `r` is the first index in `start..end` whose element satisfies `pred`,
/// or `None` when there is none.
pub open spec fn first_match<T, P: Fn(&T) -> bool>(s: Seq<T>, pred: P, start: int, end: int, r: Option<usize>) -> bool {
    match r {
        Some(i) => start <= i < end && holds(pred, s[i as int])
            && forall|j: int| start <= j < i ==> !holds(pred, #[trigger] s[j]),
        None => forall|j: int| start <= j < end ==> !holds(pred, #[trigger] s[j]),
    }
}

/// Asks `pred` about one element.
fn test_element<T, P: Fn(&T) -> bool>(pred: &P, x: &T) -> (r: bool)
    requires
        pred_ok::<T, P>(*pred),
    ensures
        r == holds(*pred, *x),
{
    let r = pred(x);
    proof {
        assert(call_ensures(*pred, (x,), r));
    }
    r
}

/// The first index of `input[start..end]` whose element satisfies `pred`.
pub fn find_in_range<T, P: Fn(&T) -> bool>(input: &[T], start: usize, end: usize, pred: &P) -> (r: Option<usize>)
    requires
        pred_ok::<T, P>(*pred),
        start <= end <= input@.len(),
    ensures
        first_match(input@, *pred, start as int, end as int, r),
{
    let mut i = start;
    while i < end
        invariant
            pred_ok::<T, P>(*pred),
            start <= i <= end <= input@.len(),
            forall|j: int| start <= j < i ==> !holds(*pred, #[trigger] input@[j]),
        decreases end - i,
    {
        if test_element(pred, &input[i]) {
            return Some(i);
        }
        i = i + 1;
    }
    None
}

/// The earlier of two search results.
pub fn earliest(a: Option<usize>, b: Option<usize>) -> (r: Option<usize>)
    ensures
        r == (match (a, b) {
            (Some(x), Some(y)) => Some(if x <= y { x } else { y }),
            (Some(x), None) => Some(x),
            (None, Some(y)) => Some(y),
            (None, None) => None::<usize>,
        }),
{
    match (a, b) {
        (Some(x), Some(y)) => Some(if x <= y { x } else { y }),
        (Some(x), None) => Some(x),
        (None, Some(y)) => Some(y),
        (None, None) => None,
    }
}

/// The first index of `input` whose element satisfies `pred`, searching the
/// chunks the options give for `workers` workers and keeping the smallest
/// index found.
pub fn parallel_find<T, P: Fn(&T) -> bool>(input: &[T], workers: usize, options: ParallelForOptions, pred: &P) -> (r: Option<usize>)
    requires
        pred_ok::<T, P>(*pred),
        options.chunk_size is Fixed ==> options.chunk_size->Fixed_0 > 0,
    ensures
        first_match(input@, *pred, 0, input@.len() as int, r),
{
    let n = input.len();
    if n == 0 {
        return None;
    }
    let chunks = chunk_ranges_for_workers(0..n, options, workers);
    let ghost size = spec_resolve_chunk_size(options.chunk_size, n as nat, workers as nat);
    let mut found: Option<usize> = None;
    let mut k: usize = 0;
    while k < chunks.len()
        invariant
            pred_ok::<T, P>(*pred),
            n == input@.len(),
            n > 0,
            fixed_chunks(chunks@, 0, n as nat, size),
            k <= chunks@.len(),
            first_match(input@, *pred, 0, if k == 0 { 0 } else { chunks@[k - 1].end as int }, found),
        decreases chunks@.len() - k,
    {
        let c = &chunks[k];
        proof {
            assert(chunks@[k as int].start < chunks@[k as int].end);
            if k > 0 {
                assert(chunks@[k - 1].end == chunks@[k as int].start);
            } else {
                assert(chunks@[0].start == 0);
            }
            lemma_chunk_within(chunks@, n as nat, size, k as int);
        }
        let here = find_in_range(input, c.start, c.end, pred);
        found = earliest(found, here);
        k = k + 1;
    }
    found
}

proof fn lemma_chunk_within(chunks: Seq<Range<usize>>, n: nat, size: nat, k: int)
    requires
        fixed_chunks(chunks, 0, n, size),
        0 <= k < chunks.len(),
    ensures
        chunks[k].end <= n,
    decreases chunks.len() - k,
{
    if k + 1 < chunks.len() {
        lemma_chunk_within(chunks, n, size, k + 1);
        assert(chunks[k].end == chunks[k + 1].start);
        assert(chunks[k + 1].start < chunks[k + 1].end);
    }
}

} // verus!
