use vstd::prelude::*;
use std::ops::Range;
use crate::parallel_for::{balanced_chunks, balanced_count, balanced_chunk_ranges_for_workers, mul_saturating};

verus! {

/// `op` can be called on any two values and always gives the same answer.
pub open spec fn op_ok<T, F: Fn(T, T) -> T>(op: F) -> bool {
    &&& forall|a: T, b: T| #[trigger] call_requires(op, (a, b))
    &&& forall|a: T, b: T, r1: T, r2: T|
        #![trigger call_ensures(op, (a, b), r1), call_ensures(op, (a, b), r2)]
        call_ensures(op, (a, b), r1) && call_ensures(op, (a, b), r2) ==> r1 == r2
}

/// The value `op` gives for `a` and `b`.
pub open spec fn ap<T, F: Fn(T, T) -> T>(op: F, a: T, b: T) -> T {
    choose|r: T| call_ensures(op, (a, b), r)
}

/// `op` is associative.
pub open spec fn associative<T, F: Fn(T, T) -> T>(op: F) -> bool {
    forall|a: T, b: T, c: T| #[trigger] ap(op, ap(op, a, b), c) == ap(op, a, ap(op, b, c))
}

/// Left fold of `s` into `acc`.
pub open spec fn fold<T, F: Fn(T, T) -> T>(op: F, acc: T, s: Seq<T>) -> T
    decreases s.len(),
{
    if s.len() == 0 {
        acc
    } else {
        ap(op, fold(op, acc, s.drop_last()), s.last())
    }
}

/// Element `i` is the fold of the first `i + 1` elements.
pub open spec fn inclusive_scan_of<T, F: Fn(T, T) -> T>(s: Seq<T>, op: F) -> Seq<T> {
    Seq::new(s.len(), |i: int| fold(op, s[0], s.subrange(1, i + 1)))
}

/// Element `i` is the fold of the first `i` elements into `init`.
pub open spec fn exclusive_scan_of<T, F: Fn(T, T) -> T>(s: Seq<T>, init: T, op: F) -> Seq<T> {
    Seq::new(s.len(), |i: int| fold(op, init, s.subrange(0, i)))
}

/// `blocks` cut `0..n` into consecutive non-empty ranges.
pub open spec fn contiguous_blocks(blocks: Seq<Range<usize>>, n: nat) -> bool {
    &&& blocks.len() >= 1
    &&& blocks[0].start == 0
    &&& blocks[blocks.len() - 1].end == n
    &&& forall|k: int| 0 <= k < blocks.len() ==> (#[trigger] blocks[k]).start < blocks[k].end
    &&& forall|k: int| 0 <= k < blocks.len() - 1 ==> (#[trigger] blocks[k]).end == blocks[k + 1].start
}

pub open spec fn segment<T>(s: Seq<T>, b: Range<usize>) -> Seq<T> {
    s.subrange(b.start as int, b.end as int)
}

/// Calls `op`.
pub fn apply<T, F: Fn(T, T) -> T>(op: &F, a: T, b: T) -> (r: T)
    requires
        op_ok::<T, F>(*op),
    ensures
        r == ap(*op, a, b),
{
    let r = op(a, b);
    proof {
        assert(call_ensures(*op, (a, b), r));
        let c = ap(*op, a, b);
        assert(call_ensures(*op, (a, b), c));
    }
    r
}

pub proof fn lemma_fold_push<T, F: Fn(T, T) -> T>(op: F, acc: T, s: Seq<T>, x: T)
    ensures
        fold(op, acc, s.push(x)) == ap(op, fold(op, acc, s), x),
{
    assert(s.push(x).drop_last() =~= s);
}

pub proof fn lemma_fold_concat<T, F: Fn(T, T) -> T>(op: F, acc: T, s: Seq<T>, t: Seq<T>)
    ensures
        fold(op, acc, s + t) == fold(op, fold(op, acc, s), t),
    decreases t.len(),
{
    if t.len() == 0 {
        assert(s + t =~= s);
    } else {
        lemma_fold_concat(op, acc, s, t.drop_last());
        assert((s + t).drop_last() =~= s + t.drop_last());
    }
}

/// With an associative operator a value can be folded in at the front.
pub proof fn lemma_fold_assoc<T, F: Fn(T, T) -> T>(op: F, a: T, b: T, t: Seq<T>)
    requires
        associative(op),
    ensures
        ap(op, a, fold(op, b, t)) == fold(op, ap(op, a, b), t),
    decreases t.len(),
{
    if t.len() > 0 {
        lemma_fold_assoc(op, a, b, t.drop_last());
        assert(ap(op, ap(op, a, fold(op, b, t.drop_last())), t.last()) == ap(op, a, ap(op, fold(op, b, t.drop_last()), t.last())));
    }
}

/// Joining two folds: the fold of `u` into `x`, combined with the fold of
/// `v` into `y`, is the fold of `u`, `y`, `v` into `x`.
pub proof fn lemma_fold_join<T, F: Fn(T, T) -> T>(op: F, x: T, u: Seq<T>, y: T, v: Seq<T>)
    requires
        associative(op),
    ensures
        ap(op, fold(op, x, u), fold(op, y, v)) == fold(op, x, u.push(y) + v),
{
    lemma_fold_assoc(op, fold(op, x, u), y, v);
    lemma_fold_push(op, x, u, y);
    lemma_fold_concat(op, x, u.push(y), v);
}

/// Inclusive scan of `input[start..end]`.
pub fn inclusive_scan_block<T: Copy, F: Fn(T, T) -> T>(input: &[T], start: usize, end: usize, op: &F) -> (r: Vec<T>)
    requires
        op_ok::<T, F>(*op),
        start < end <= input@.len(),
    ensures
        r@ == inclusive_scan_of(input@.subrange(start as int, end as int), *op),
{
    let ghost seg = input@.subrange(start as int, end as int);
    let mut acc = input[start];
    let mut output: Vec<T> = Vec::new();
    output.push(acc);
    proof {
        assert(seg.subrange(1, 1) =~= Seq::<T>::empty());
    }
    let mut i = start + 1;
    while i < end
        invariant
            op_ok::<T, F>(*op),
            start < i <= end <= input@.len(),
            seg == input@.subrange(start as int, end as int),
            output@.len() == i - start,
            acc == output@[i - start - 1],
            forall|j: int| 0 <= j < i - start ==> #[trigger] output@[j] == fold(*op, seg[0], seg.subrange(1, j + 1)),
        decreases end - i,
    {
        let ghost prev = acc;
        acc = apply(op, acc, input[i]);
        proof {
            let m = (i - start) as int;
            assert(seg.subrange(1, m + 1) =~= seg.subrange(1, m).push(seg[m]));
            lemma_fold_push(*op, seg[0], seg.subrange(1, m), seg[m]);
        }
        output.push(acc);
        i = i + 1;
    }
    proof {
        assert(output@ =~= inclusive_scan_of(seg, *op));
    }
    output
}

/// Sequential inclusive scan of a non-empty slice.
pub fn sequential_inclusive_scan<T: Copy, F: Fn(T, T) -> T>(input: &[T], op: &F) -> (r: Vec<T>)
    requires
        op_ok::<T, F>(*op),
        input@.len() > 0,
    ensures
        r@ == inclusive_scan_of(input@, *op),
{
    let r = inclusive_scan_block(input, 0, input.len(), op);
    proof {
        assert(input@.subrange(0, input@.len() as int) =~= input@);
    }
    r
}

/// Exclusive scan of `input[start..end]` starting from `initial`.
pub fn exclusive_scan_block<T: Copy, F: Fn(T, T) -> T>(input: &[T], start: usize, end: usize, initial: T, op: &F) -> (r: Vec<T>)
    requires
        op_ok::<T, F>(*op),
        start <= end <= input@.len(),
    ensures
        r@ == exclusive_scan_of(input@.subrange(start as int, end as int), initial, *op),
{
    let ghost seg = input@.subrange(start as int, end as int);
    let mut acc = initial;
    let mut output: Vec<T> = Vec::new();
    let mut i = start;
    while i < end
        invariant
            op_ok::<T, F>(*op),
            start <= i <= end <= input@.len(),
            seg == input@.subrange(start as int, end as int),
            output@.len() == i - start,
            acc == fold(*op, initial, seg.subrange(0, i - start)),
            forall|j: int| 0 <= j < i - start ==> #[trigger] output@[j] == fold(*op, initial, seg.subrange(0, j)),
        decreases end - i,
    {
        output.push(acc);
        proof {
            let m = (i - start) as int;
            assert(seg.subrange(0, m + 1) =~= seg.subrange(0, m).push(seg[m]));
            lemma_fold_push(*op, initial, seg.subrange(0, m), seg[m]);
        }
        acc = apply(op, acc, input[i]);
        i = i + 1;
    }
    proof {
        assert(output@ =~= exclusive_scan_of(seg, initial, *op));
    }
    output
}

/// Sequential exclusive scan starting from `init`.
pub fn sequential_exclusive_scan<T: Copy, F: Fn(T, T) -> T>(input: &[T], init: T, op: &F) -> (r: Vec<T>)
    requires
        op_ok::<T, F>(*op),
    ensures
        r@ == exclusive_scan_of(input@, init, *op),
{
    let r = exclusive_scan_block(input, 0, input.len(), init, op);
    proof {
        assert(input@.subrange(0, input@.len() as int) =~= input@);
    }
    r
}

/// Block totals of the blocked inclusive scan: the last local value of each block.
pub open spec fn inclusive_block_sums<T, F: Fn(T, T) -> T>(s: Seq<T>, blocks: Seq<Range<usize>>, op: F) -> Seq<T> {
    Seq::new(blocks.len(), |k: int| inclusive_scan_of(segment(s, blocks[k]), op).last())
}

/// The value the blocked inclusive scan leaves at `i` in block `k`: the local
/// scan value, combined after the running total of the earlier blocks.
pub open spec fn blocked_inclusive_value<T, F: Fn(T, T) -> T>(s: Seq<T>, blocks: Seq<Range<usize>>, op: F, k: int, i: int) -> T {
    let local = inclusive_scan_of(segment(s, blocks[k]), op)[i - blocks[k].start];
    if k == 0 {
        local
    } else {
        ap(op, inclusive_scan_of(inclusive_block_sums(s, blocks, op), op)[k - 1], local)
    }
}

/// The first value of each block of the blocked exclusive scan: `init` for
/// the first block, the element just before the block for the others.
pub open spec fn exclusive_block_initial<T>(s: Seq<T>, blocks: Seq<Range<usize>>, init: T, k: int) -> T {
    if k == 0 { init } else { s[blocks[k].start - 1] }
}

pub open spec fn exclusive_block_sums<T, F: Fn(T, T) -> T>(s: Seq<T>, blocks: Seq<Range<usize>>, init: T, op: F) -> Seq<T> {
    Seq::new(blocks.len(), |k: int| exclusive_scan_of(segment(s, blocks[k]), exclusive_block_initial(s, blocks, init, k), op).last())
}

/// The value the blocked exclusive scan leaves at `i` in block `k`.
pub open spec fn blocked_exclusive_value<T, F: Fn(T, T) -> T>(s: Seq<T>, blocks: Seq<Range<usize>>, init: T, op: F, k: int, i: int) -> T {
    let local = exclusive_scan_of(segment(s, blocks[k]), exclusive_block_initial(s, blocks, init, k), op)[i - blocks[k].start];
    if k == 0 {
        local
    } else {
        ap(op, inclusive_scan_of(exclusive_block_sums(s, blocks, init, op), op)[k - 1], local)
    }
}

/// Combines `prefix` in front of every value of `values[start..end]`.
pub fn offset_range<T: Copy, F: Fn(T, T) -> T>(values: &mut Vec<T>, start: usize, end: usize, prefix: T, op: &F)
    requires
        op_ok::<T, F>(*op),
        start <= end <= old(values)@.len(),
    ensures
        final(values)@.len() == old(values)@.len(),
        forall|i: int| start <= i < end ==> #[trigger] final(values)@[i] == ap(*op, prefix, old(values)@[i]),
        forall|i: int| 0 <= i < old(values)@.len() && !(start <= i < end) ==> #[trigger] final(values)@[i] == old(values)@[i],
{
    let mut i: usize = start;
    while i < end
        invariant
            op_ok::<T, F>(*op),
            start <= i <= end <= values@.len(),
            values@.len() == old(values)@.len(),
            forall|j: int| start <= j < i ==> #[trigger] values@[j] == ap(*op, prefix, old(values)@[j]),
            forall|j: int| 0 <= j < values@.len() && !(start <= j < i) ==> #[trigger] values@[j] == old(values)@[j],
        decreases end - i,
    {
        let v = apply(op, prefix, values[i]);
        values.set(i, v);
        i = i + 1;
    }
}

/// Appends every element of `src` to `dst`.
fn append_all<T: Copy>(dst: &mut Vec<T>, src: &Vec<T>)
    ensures
        final(dst)@ == old(dst)@ + src@,
{
    let mut i: usize = 0;
    while i < src.len()
        invariant
            i <= src@.len(),
            dst@ == old(dst)@ + src@.subrange(0, i as int),
        decreases src@.len() - i,
    {
        dst.push(src[i]);
        proof {
            assert(src@.subrange(0, i as int + 1) =~= src@.subrange(0, i as int).push(src@[i as int]));
        }
        i = i + 1;
    }
    proof {
        assert(src@.subrange(0, src@.len() as int) =~= src@);
    }
}

/// Position `i` lies in block `k`.
pub open spec fn in_block(blocks: Seq<Range<usize>>, k: int, i: int) -> bool {
    0 <= k < blocks.len() && blocks[k].start <= i < blocks[k].end
}

/// The local inclusive scan value at `i` of block `k`.
pub open spec fn local_inclusive_value<T, F: Fn(T, T) -> T>(s: Seq<T>, blocks: Seq<Range<usize>>, op: F, k: int, i: int) -> T {
    inclusive_scan_of(segment(s, blocks[k]), op)[i - blocks[k].start]
}

/// The local exclusive scan value at `i` of block `k`.
pub open spec fn local_exclusive_value<T, F: Fn(T, T) -> T>(s: Seq<T>, blocks: Seq<Range<usize>>, init: T, op: F, k: int, i: int) -> T {
    exclusive_scan_of(segment(s, blocks[k]), exclusive_block_initial(s, blocks, init, k), op)[i - blocks[k].start]
}

/// First phase of the blocked inclusive scan: every block scanned on its
/// own, side by side, and the block totals.
pub fn local_inclusive_scans<T: Copy, F: Fn(T, T) -> T>(input: &[T], blocks: &Vec<Range<usize>>, op: &F) -> (r: (Vec<T>, Vec<T>))
    requires
        op_ok::<T, F>(*op),
        contiguous_blocks(blocks@, input@.len()),
    ensures
        r.0@.len() == input@.len(),
        forall|k: int, i: int| #[trigger] in_block(blocks@, k, i) ==> r.0@[i] == local_inclusive_value(input@, blocks@, *op, k, i),
        r.1@ == inclusive_block_sums(input@, blocks@, *op),
{
    let ghost s = input@;
    let nb = blocks.len();
    let mut output: Vec<T> = Vec::new();
    let mut sums: Vec<T> = Vec::new();
    let mut k: usize = 0;
    while k < nb
        invariant
            op_ok::<T, F>(*op),
            s == input@,
            nb == blocks@.len(),
            contiguous_blocks(blocks@, input@.len()),
            k <= nb,
            sums@.len() == k,
            output@.len() == (if k == 0 { 0 } else { blocks@[k - 1].end as int }),
            forall|j: int| 0 <= j < k ==> #[trigger] sums@[j] == inclusive_block_sums(s, blocks@, *op)[j],
            forall|j: int, i: int| #[trigger] in_block(blocks@, j, i) && j < k ==> output@[i] == local_inclusive_value(s, blocks@, *op, j, i),
        decreases nb - k,
    {
        let b = &blocks[k];
        proof {
            lemma_block_within(blocks@, input@.len(), k as int);
            assert(blocks@[k as int].start < blocks@[k as int].end);
        }
        let local = inclusive_scan_block(input, b.start, b.end, op);
        let last = local[local.len() - 1];
        sums.push(last);
        let ghost before = output@;
        append_all(&mut output, &local);
        proof {
            let bk = blocks@[k as int];
            assert forall|j: int, i: int| #[trigger] in_block(blocks@, j, i) && j < k + 1 implies output@[i] == local_inclusive_value(s, blocks@, *op, j, i) by {
                if j < k {
                    lemma_blocks_ordered(blocks@, input@.len(), j, k as int);
                    assert(output@[i] == before[i]);
                } else {
                    assert(output@[i] == local@[i - bk.start]);
                }
            }
        }
        k = k + 1;
    }
    proof {
        assert(sums@ =~= inclusive_block_sums(s, blocks@, *op));
        lemma_block_within(blocks@, input@.len(), nb - 1);
    }
    (output, sums)
}

/// First phase of the blocked exclusive scan: every block scanned on its own
/// from its initial value, side by side, and the block totals.
pub fn local_exclusive_scans<T: Copy, F: Fn(T, T) -> T>(input: &[T], blocks: &Vec<Range<usize>>, init: T, op: &F) -> (r: (Vec<T>, Vec<T>))
    requires
        op_ok::<T, F>(*op),
        contiguous_blocks(blocks@, input@.len()),
    ensures
        r.0@.len() == input@.len(),
        forall|k: int, i: int| #[trigger] in_block(blocks@, k, i) ==> r.0@[i] == local_exclusive_value(input@, blocks@, init, *op, k, i),
        r.1@ == exclusive_block_sums(input@, blocks@, init, *op),
{
    let ghost s = input@;
    let nb = blocks.len();
    let mut output: Vec<T> = Vec::new();
    let mut sums: Vec<T> = Vec::new();
    let mut k: usize = 0;
    while k < nb
        invariant
            op_ok::<T, F>(*op),
            s == input@,
            nb == blocks@.len(),
            contiguous_blocks(blocks@, input@.len()),
            k <= nb,
            sums@.len() == k,
            output@.len() == (if k == 0 { 0 } else { blocks@[k - 1].end as int }),
            forall|j: int| 0 <= j < k ==> #[trigger] sums@[j] == exclusive_block_sums(s, blocks@, init, *op)[j],
            forall|j: int, i: int| #[trigger] in_block(blocks@, j, i) && j < k ==> output@[i] == local_exclusive_value(s, blocks@, init, *op, j, i),
        decreases nb - k,
    {
        let b = &blocks[k];
        proof {
            lemma_block_within(blocks@, input@.len(), k as int);
            assert(blocks@[k as int].start < blocks@[k as int].end);
            if k > 0 {
                assert(blocks@[k - 1].start < blocks@[k - 1].end);
            }
        }
        let initial = if k == 0 { init } else { input[b.start - 1] };
        let local = exclusive_scan_block(input, b.start, b.end, initial, op);
        let last = local[local.len() - 1];
        sums.push(last);
        let ghost before = output@;
        append_all(&mut output, &local);
        proof {
            let bk = blocks@[k as int];
            assert forall|j: int, i: int| #[trigger] in_block(blocks@, j, i) && j < k + 1 implies output@[i] == local_exclusive_value(s, blocks@, init, *op, j, i) by {
                if j < k {
                    lemma_blocks_ordered(blocks@, input@.len(), j, k as int);
                    assert(output@[i] == before[i]);
                } else {
                    assert(output@[i] == local@[i - bk.start]);
                }
            }
        }
        k = k + 1;
    }
    proof {
        assert(sums@ =~= exclusive_block_sums(s, blocks@, init, *op));
        lemma_block_within(blocks@, input@.len(), nb - 1);
    }
    (output, sums)
}

/// The value block `k` of a blocked exclusive scan starts from: `init` for
/// the first block, else the input element just before the block.
pub fn exclusive_block_seed<T: Copy>(input: &[T], blocks: &Vec<Range<usize>>, init: T, k: usize) -> (r: T)
    requires
        contiguous_blocks(blocks@, input@.len()),
        k < blocks@.len(),
    ensures
        r == exclusive_block_initial(input@, blocks@, init, k as int),
{
    if k == 0 {
        init
    } else {
        proof {
            lemma_block_within(blocks@, input@.len(), k as int);
            lemma_block_within(blocks@, input@.len(), k - 1);
            assert(blocks@[k - 1].start < blocks@[k - 1].end);
        }
        input[blocks[k].start - 1]
    }
}

/// The total of one scanned block: its last value.
pub fn block_total<T: Copy>(local: &Vec<T>) -> (r: T)
    requires
        local@.len() > 0,
    ensures
        r == local@.last(),
{
    local[local.len() - 1]
}

/// What block `k` is offset by in the last phase of a blocked scan: nothing
/// for the first block, else the running total of the blocks before it.
pub fn block_offset<T: Copy>(prefix: &Vec<T>, k: usize) -> (r: Option<T>)
    requires
        k < prefix@.len(),
    ensures
        k == 0 ==> r is None,
        k > 0 ==> r == Some(prefix@[k - 1]),
{
    if k == 0 {
        None
    } else {
        Some(prefix[k - 1])
    }
}

/// Last phase of a blocked scan: every block after the first is offset by
/// the running total of the blocks before it.
pub fn offset_blocks<T: Copy, F: Fn(T, T) -> T>(values: &mut Vec<T>, blocks: &Vec<Range<usize>>, prefix: &Vec<T>, op: &F)
    requires
        op_ok::<T, F>(*op),
        contiguous_blocks(blocks@, old(values)@.len()),
        prefix@.len() == blocks@.len(),
    ensures
        final(values)@.len() == old(values)@.len(),
        forall|k: int, i: int| #[trigger] in_block(blocks@, k, i) ==>
            final(values)@[i] == (if k == 0 { old(values)@[i] } else { ap(*op, prefix@[k - 1], old(values)@[i]) }),
{
    let nb = blocks.len();
    let ghost n = values@.len();
    let mut k: usize = 1;
    proof {
        lemma_block_within(blocks@, n, 0);
        if nb > 1 {
            lemma_block_within(blocks@, n, 1);
        }
    }
    while k < nb
        invariant
            op_ok::<T, F>(*op),
            nb == blocks@.len(),
            prefix@.len() == nb,
            n == old(values)@.len(),
            contiguous_blocks(blocks@, n),
            1 <= k <= nb,
            values@.len() == n,
            forall|j: int, i: int| #[trigger] in_block(blocks@, j, i) && j < k ==>
                values@[i] == (if j == 0 { old(values)@[i] } else { ap(*op, prefix@[j - 1], old(values)@[i]) }),
            forall|i: int| (if k == nb { n as int } else { blocks@[k as int].start as int }) <= i < n ==> #[trigger] values@[i] == old(values)@[i],
        decreases nb - k,
    {
        let b = &blocks[k];
        proof {
            lemma_block_within(blocks@, n, k as int);
        }
        let ghost before = values@;
        offset_range(values, b.start, b.end, prefix[k - 1], op);
        proof {
            assert forall|j: int, i: int| #[trigger] in_block(blocks@, j, i) && j < k + 1 implies
                values@[i] == (if j == 0 { old(values)@[i] } else { ap(*op, prefix@[j - 1], old(values)@[i]) }) by {
                if j < k {
                    lemma_blocks_ordered(blocks@, n, j, k as int);
                } else {
                    assert(before[i] == old(values)@[i]);
                }
            }
            if k + 1 < nb {
                lemma_block_within(blocks@, n, k + 1);
            }
        }
        k = k + 1;
    }
    proof {
        assert forall|j: int, i: int| #[trigger] in_block(blocks@, j, i) implies
            values@[i] == (if j == 0 { old(values)@[i] } else { ap(*op, prefix@[j - 1], old(values)@[i]) }) by {
            if j == 0 && nb > 1 {
                lemma_blocks_ordered(blocks@, n, 0, 1);
            }
        }
    }
}

/// Inclusive scan computed block by block, the way the workers of a
/// parallel scan do it: each block is scanned on its own, the block totals
/// are scanned, and every block after the first is offset by the running
/// total before it.
pub fn blocked_inclusive_scan<T: Copy, F: Fn(T, T) -> T>(input: &[T], blocks: &Vec<Range<usize>>, op: &F) -> (r: Vec<T>)
    requires
        op_ok::<T, F>(*op),
        contiguous_blocks(blocks@, input@.len()),
    ensures
        r@.len() == input@.len(),
        forall|k: int, i: int| #[trigger] in_block(blocks@, k, i) ==> r@[i] == blocked_inclusive_value(input@, blocks@, *op, k, i),
{
    let (mut output, sums) = local_inclusive_scans(input, blocks, op);
    let prefix = sequential_inclusive_scan(sums.as_slice(), op);
    let ghost phase1 = output@;
    offset_blocks(&mut output, blocks, &prefix, op);
    proof {
        assert forall|k: int, i: int| #[trigger] in_block(blocks@, k, i) implies output@[i] == blocked_inclusive_value(input@, blocks@, *op, k, i) by {
            assert(phase1[i] == local_inclusive_value(input@, blocks@, *op, k, i));
        }
    }
    output
}

/// Exclusive scan computed block by block: every block after the first
/// starts from the element just before it, the block totals are scanned, and
/// every block after the first is offset by the running total before it.
pub fn blocked_exclusive_scan<T: Copy, F: Fn(T, T) -> T>(input: &[T], blocks: &Vec<Range<usize>>, init: T, op: &F) -> (r: Vec<T>)
    requires
        op_ok::<T, F>(*op),
        contiguous_blocks(blocks@, input@.len()),
    ensures
        r@.len() == input@.len(),
        forall|k: int, i: int| #[trigger] in_block(blocks@, k, i) ==> r@[i] == blocked_exclusive_value(input@, blocks@, init, *op, k, i),
{
    let (mut output, sums) = local_exclusive_scans(input, blocks, init, op);
    let prefix = sequential_inclusive_scan(sums.as_slice(), op);
    let ghost phase1 = output@;
    offset_blocks(&mut output, blocks, &prefix, op);
    proof {
        assert forall|k: int, i: int| #[trigger] in_block(blocks@, k, i) implies output@[i] == blocked_exclusive_value(input@, blocks@, init, *op, k, i) by {
            assert(phase1[i] == local_exclusive_value(input@, blocks@, init, *op, k, i));
        }
    }
    output
}

/// Every block lies within `0..n`, and its start is at least the previous end.
pub proof fn lemma_block_within(blocks: Seq<Range<usize>>, n: nat, k: int)
    requires
        contiguous_blocks(blocks, n),
        0 <= k < blocks.len(),
    ensures
        blocks[k].end <= n,
        k > 0 ==> blocks[k - 1].end == blocks[k].start,
        k == 0 ==> blocks[k].start == 0,
    decreases blocks.len() - k,
{
    if k + 1 < blocks.len() {
        lemma_block_within(blocks, n, k + 1);
        assert(blocks[k].end == blocks[k + 1].start);
        assert(blocks[k + 1].start < blocks[k + 1].end);
    }
    if k > 0 {
        assert(blocks[k - 1].end == blocks[k].start);
    }
}

/// Earlier blocks end no later than later blocks start.
pub proof fn lemma_blocks_ordered(blocks: Seq<Range<usize>>, n: nat, j: int, k: int)
    requires
        contiguous_blocks(blocks, n),
        0 <= j < k < blocks.len(),
    ensures
        blocks[j].end <= blocks[k].start,
    decreases k - j,
{
    assert(blocks[k - 1].end == blocks[k].start);
    if j < k - 1 {
        lemma_blocks_ordered(blocks, n, j, k - 1);
        assert(blocks[k - 1].start < blocks[k - 1].end);
    }
}

/// With an associative operator, the running total before block `k` (the
/// `k - 1`-th prefix of the block totals) is the inclusive scan value at the
/// end of block `k - 1`.
proof fn lemma_inclusive_prefix<T, F: Fn(T, T) -> T>(s: Seq<T>, blocks: Seq<Range<usize>>, op: F, k: int)
    requires
        associative(op),
        contiguous_blocks(blocks, s.len()),
        0 <= k < blocks.len(),
    ensures
        inclusive_scan_of(inclusive_block_sums(s, blocks, op), op)[k] == fold(op, s[0], s.subrange(1, blocks[k].end as int)),
    decreases k,
{
    let sums = inclusive_block_sums(s, blocks, op);
    lemma_block_within(blocks, s.len(), k);
    let b = blocks[k];
    let seg = segment(s, b);
    assert(b.start < b.end);
    assert(sums[k] == fold(op, seg[0], seg.subrange(1, seg.len() as int)));
    assert(seg.subrange(1, seg.len() as int) =~= s.subrange(b.start + 1, b.end as int));
    if k == 0 {
        assert(sums.subrange(1, 1) =~= Seq::<T>::empty());
        assert(seg[0] == s[0]);
    } else {
        lemma_inclusive_prefix(s, blocks, op, k - 1);
        assert(sums.subrange(1, k + 1) =~= sums.subrange(1, k).push(sums[k]));
        lemma_fold_push(op, sums[0], sums.subrange(1, k), sums[k]);
        lemma_fold_join(op, s[0], s.subrange(1, b.start as int), s[b.start as int], s.subrange(b.start + 1, b.end as int));
        assert(s.subrange(1, b.start as int).push(s[b.start as int]) + s.subrange(b.start + 1, b.end as int) =~= s.subrange(1, b.end as int));
    }
}

/// The blocked inclusive scan equals the sequential one when the operator is
/// associative, whatever the blocks.
pub proof fn lemma_blocked_inclusive_matches<T, F: Fn(T, T) -> T>(s: Seq<T>, blocks: Seq<Range<usize>>, op: F, k: int, i: int)
    requires
        associative(op),
        contiguous_blocks(blocks, s.len()),
        in_block(blocks, k, i),
    ensures
        blocked_inclusive_value(s, blocks, op, k, i) == inclusive_scan_of(s, op)[i],
{
    lemma_block_within(blocks, s.len(), k);
    let b = blocks[k];
    let seg = segment(s, b);
    let m = i - b.start;
    assert(seg.subrange(1, m + 1) =~= s.subrange(b.start + 1, i + 1));
    if k == 0 {
        assert(seg[0] == s[0]);
    } else {
        lemma_inclusive_prefix(s, blocks, op, k - 1);
        lemma_fold_join(op, s[0], s.subrange(1, b.start as int), s[b.start as int], s.subrange(b.start + 1, i + 1));
        assert(s.subrange(1, b.start as int).push(s[b.start as int]) + s.subrange(b.start + 1, i + 1) =~= s.subrange(1, i + 1));
    }
}

/// With an associative operator, the running total before block `k` of the
/// blocked exclusive scan is the fold of everything but the last element of
/// block `k - 1`.
#[verifier::spinoff_prover]
#[verifier::rlimit(40)]
proof fn lemma_exclusive_prefix<T, F: Fn(T, T) -> T>(s: Seq<T>, blocks: Seq<Range<usize>>, init: T, op: F, k: int)
    requires
        associative(op),
        contiguous_blocks(blocks, s.len()),
        0 <= k < blocks.len(),
    ensures
        inclusive_scan_of(exclusive_block_sums(s, blocks, init, op), op)[k] == fold(op, init, s.subrange(0, blocks[k].end - 1)),
    decreases k,
{
    let sums = exclusive_block_sums(s, blocks, init, op);
    lemma_block_within(blocks, s.len(), k);
    let b = blocks[k];
    assert(b.start < b.end);
    let initial = exclusive_block_initial(s, blocks, init, k);
    assert(sums[k] == fold(op, initial, s.subrange(b.start as int, b.end - 1))) by {
        let seg = segment(s, b);
        assert(seg.subrange(0, seg.len() - 1) =~= s.subrange(b.start as int, b.end - 1));
    }
    let pk = inclusive_scan_of(sums, op)[k];
    if k == 0 {
        assert(sums.subrange(1, 1) =~= Seq::<T>::empty());
        assert(pk == sums[0]);
        assert(s.subrange(0, b.end - 1) =~= s.subrange(b.start as int, b.end - 1));
    } else {
        lemma_exclusive_prefix(s, blocks, init, op, k - 1);
        let prev = inclusive_scan_of(sums, op)[k - 1];
        assert(blocks[k - 1].start < blocks[k - 1].end);
        assert(pk == ap(op, prev, sums[k])) by {
            assert(sums.subrange(1, k + 1) =~= sums.subrange(1, k).push(sums[k]));
            lemma_fold_push(op, sums[0], sums.subrange(1, k), sums[k]);
        }
        assert(prev == fold(op, init, s.subrange(0, b.start - 1)));
        assert(initial == s[b.start - 1]);
        lemma_fold_join(op, init, s.subrange(0, b.start - 1), s[b.start - 1], s.subrange(b.start as int, b.end - 1));
        assert(s.subrange(0, b.start - 1).push(s[b.start - 1]) + s.subrange(b.start as int, b.end - 1) =~= s.subrange(0, b.end - 1));
    }
}

/// The blocked exclusive scan equals the sequential one when the operator is
/// associative, whatever the blocks.
pub proof fn lemma_blocked_exclusive_matches<T, F: Fn(T, T) -> T>(s: Seq<T>, blocks: Seq<Range<usize>>, init: T, op: F, k: int, i: int)
    requires
        associative(op),
        contiguous_blocks(blocks, s.len()),
        in_block(blocks, k, i),
    ensures
        blocked_exclusive_value(s, blocks, init, op, k, i) == exclusive_scan_of(s, init, op)[i],
{
    lemma_block_within(blocks, s.len(), k);
    let b = blocks[k];
    let seg = segment(s, b);
    let m = i - b.start;
    assert(seg.subrange(0, m) =~= s.subrange(b.start as int, i));
    if k == 0 {
        assert(s.subrange(0, i) =~= s.subrange(b.start as int, i));
    } else {
        lemma_exclusive_prefix(s, blocks, init, op, k - 1);
        assert(blocks[k - 1].start < blocks[k - 1].end);
        lemma_fold_join(op, init, s.subrange(0, b.start - 1), s[b.start - 1], s.subrange(b.start as int, i));
        assert(s.subrange(0, b.start - 1).push(s[b.start - 1]) + s.subrange(b.start as int, i) =~= s.subrange(0, i));
    }
}

/// Per-worker input size up to which a scan runs sequentially.
pub const SCAN_SEQUENTIAL_CUTOFF_PER_WORKER: usize = 2048;

/// The input length up to which a scan on `workers` workers runs sequentially.
pub open spec fn scan_cutoff(workers: nat) -> nat {
    mul_saturating(if workers > 1 { workers } else { 1 }, SCAN_SEQUENTIAL_CUTOFF_PER_WORKER as nat)
}

fn scan_sequential_cutoff(workers: usize) -> (r: usize)
    ensures
        r == scan_cutoff(workers as nat),
{
    let w = if workers > 1 { workers } else { 1 };
    if w > usize::MAX / SCAN_SEQUENTIAL_CUTOFF_PER_WORKER {
        usize::MAX
    } else {
        w * SCAN_SEQUENTIAL_CUTOFF_PER_WORKER
    }
}

/// Balanced blocks over a non-empty range are contiguous and non-empty.
pub proof fn lemma_balanced_contiguous(b: Seq<Range<usize>>, n: nat, w: nat)
    requires
        0 < w <= n,
        balanced_chunks(b, 0, n, w),
    ensures
        contiguous_blocks(b, n),
{
    assert(n / w >= 1) by (nonlinear_arith) requires 0 < w <= n;
    assert forall|k: int| 0 <= k < b.len() implies (#[trigger] b[k]).start < b[k].end by {
        assert(b[k].end - b[k].start == n / w + (if k < n % w { 1int } else { 0int }));
    }
}

/// Inclusive scan as the workers of a parallel scan compute it: short
/// inputs sequentially, longer ones in one balanced block per worker.  The
/// result is the sequential scan whenever the operator is associative.
pub fn parallel_inclusive_scan<T: Copy, F: Fn(T, T) -> T>(input: &[T], workers: usize, op: &F) -> (r: Vec<T>)
    requires
        op_ok::<T, F>(*op),
    ensures
        r@.len() == input@.len(),
        input@.len() <= scan_cutoff(workers as nat) ==> r@ == inclusive_scan_of(input@, *op),
        input@.len() > scan_cutoff(workers as nat) ==> exists|b: Seq<Range<usize>>| {
            &&& #[trigger] balanced_chunks(b, 0, input@.len(), balanced_count(input@.len(), workers as nat))
            &&& forall|k: int, i: int| #[trigger] in_block(b, k, i) ==> r@[i] == blocked_inclusive_value(input@, b, *op, k, i)
        },
        associative(*op) ==> r@ == inclusive_scan_of(input@, *op),
{
    let n = input.len();
    if n == 0 {
        let r: Vec<T> = Vec::new();
        proof {
            assert(r@ =~= inclusive_scan_of(input@, *op));
        }
        return r;
    }
    if n <= scan_sequential_cutoff(workers) {
        return sequential_inclusive_scan(input, op);
    }
    let blocks = balanced_chunk_ranges_for_workers(0..n, workers);
    proof {
        lemma_balanced_contiguous(blocks@, n as nat, balanced_count(n as nat, workers as nat));
    }
    let r = blocked_inclusive_scan(input, &blocks, op);
    proof {
        if associative(*op) {
            assert forall|i: int| 0 <= i < n implies r@[i] == inclusive_scan_of(input@, *op)[i] by {
                let k = lemma_block_of(blocks@, n as nat, i);
                lemma_blocked_inclusive_matches(input@, blocks@, *op, k, i);
            }
            assert(r@ =~= inclusive_scan_of(input@, *op));
        }
        assert(balanced_chunks(blocks@, 0, input@.len(), balanced_count(input@.len(), workers as nat)));
    }
    r
}

/// Exclusive scan from `init` as the workers of a parallel scan compute it:
/// short inputs sequentially, longer ones in one balanced block per worker.
/// The result is the sequential scan whenever the operator is associative.
pub fn parallel_exclusive_scan<T: Copy, F: Fn(T, T) -> T>(input: &[T], workers: usize, init: T, op: &F) -> (r: Vec<T>)
    requires
        op_ok::<T, F>(*op),
    ensures
        r@.len() == input@.len(),
        input@.len() <= scan_cutoff(workers as nat) ==> r@ == exclusive_scan_of(input@, init, *op),
        input@.len() > scan_cutoff(workers as nat) ==> exists|b: Seq<Range<usize>>| {
            &&& #[trigger] balanced_chunks(b, 0, input@.len(), balanced_count(input@.len(), workers as nat))
            &&& forall|k: int, i: int| #[trigger] in_block(b, k, i) ==> r@[i] == blocked_exclusive_value(input@, b, init, *op, k, i)
        },
        associative(*op) ==> r@ == exclusive_scan_of(input@, init, *op),
{
    let n = input.len();
    if n == 0 {
        let r: Vec<T> = Vec::new();
        proof {
            assert(r@ =~= exclusive_scan_of(input@, init, *op));
        }
        return r;
    }
    if n <= scan_sequential_cutoff(workers) {
        return sequential_exclusive_scan(input, init, op);
    }
    let blocks = balanced_chunk_ranges_for_workers(0..n, workers);
    proof {
        lemma_balanced_contiguous(blocks@, n as nat, balanced_count(n as nat, workers as nat));
    }
    let r = blocked_exclusive_scan(input, &blocks, init, op);
    proof {
        if associative(*op) {
            assert forall|i: int| 0 <= i < n implies r@[i] == exclusive_scan_of(input@, init, *op)[i] by {
                let k = lemma_block_of(blocks@, n as nat, i);
                lemma_blocked_exclusive_matches(input@, blocks@, init, *op, k, i);
            }
            assert(r@ =~= exclusive_scan_of(input@, init, *op));
        }
        assert(balanced_chunks(blocks@, 0, input@.len(), balanced_count(input@.len(), workers as nat)));
    }
    r
}

/// Every position of `0..n` lies in some block.
pub proof fn lemma_block_of(blocks: Seq<Range<usize>>, n: nat, i: int) -> (k: int)
    requires
        contiguous_blocks(blocks, n),
        0 <= i < n,
    ensures
        in_block(blocks, k, i),
{
    lemma_block_of_from(blocks, n, i, blocks.len() - 1)
}

proof fn lemma_block_of_from(blocks: Seq<Range<usize>>, n: nat, i: int, j: int) -> (k: int)
    requires
        contiguous_blocks(blocks, n),
        0 <= j < blocks.len(),
        0 <= i < blocks[j].end,
    ensures
        in_block(blocks, k, i),
    decreases j,
{
    if blocks[j].start <= i {
        j
    } else {
        assert(j > 0);
        assert(blocks[j - 1].end == blocks[j].start);
        lemma_block_of_from(blocks, n, i, j - 1)
    }
}

} // verus!
