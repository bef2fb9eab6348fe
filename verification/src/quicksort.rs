use vstd::prelude::*;
use crate::sort::{
    lt, callable, strict_weak_order, sorted_by, perm, three_way, sides_permuted,
    insertion_sort_by_less, partial_insertion_sort_by_less, choose_pivot_index_by_less,
    partition_by_less, partition_equal_left_by_less, break_patterns_by_less,
    SORT_INSERTION_SORT_THRESHOLD, SORT_IMBALANCED_PARTITION_DIVISOR,
    inversions, lemma_sorted_no_inversions, SORT_PARTIAL_INSERTION_SORT_LIMIT,
};
use crate::heap::{heapsort_by_less, lemma_perm_has, lemma_not_before_trans, lemma_before_asym};
use crate::order::{is_equal_by_less, sort_slice_by_less, sort_unstable_by_less};
use crate::sort::{initial_sort_bad_partition_budget, SORT_SEQUENTIAL_CUTOFF_PER_WORKER};
use crate::parallel_for::{ParallelForOptions, spec_resolve_chunk_size};

verus! {

broadcast use vstd::seq_lib::group_to_multiset_ensures;

/// The element `pred` (the one just before the range, if any) does not come
/// after any element of `s`.
pub open spec fn pred_ok<T, F: Fn(&T, &T) -> bool>(pred: Option<&T>, s: Seq<T>, f: F) -> bool {
    pred matches Some(q) ==> forall|i: int| 0 <= i < s.len() ==> !lt(f, #[trigger] s[i], *q)
}

/// `s` is a three-way partition at `l` and `r` around some pivot value.
pub open spec fn pivot_split<T, F: Fn(&T, &T) -> bool>(s: Seq<T>, f: F, l: int, r: int) -> bool {
    exists|p: T| #[trigger] three_way(s, f, p, l, r)
}

/// What one partitioning step left to do.
pub enum QuicksortStep {
    /// The range is sorted.
    Sorted,
    /// The range is split into a part before `left_len`, a run of equivalent
    /// elements up to `right_begin`, and a part after; both outer parts still
    /// need sorting, with `budget` bad partitions left.
    Split { left_len: usize, right_begin: usize, budget: usize },
}

/// Permuting each side and keeping the middle gives a permutation.
pub proof fn lemma_sides_perm<T>(a: Seq<T>, b: Seq<T>, l: int, r: int)
    requires
        sides_permuted(a, b, l, r),
    ensures
        perm(a, b),
{
    broadcast use vstd::seq_lib::lemma_multiset_commutative;
    assert(a =~= a.subrange(0, l) + a.subrange(l, r) + a.subrange(r, a.len() as int));
    assert(b =~= b.subrange(0, l) + b.subrange(l, r) + b.subrange(r, b.len() as int));
}

/// Permuting each side keeps a three-way partition.
pub proof fn lemma_sides_three_way<T, F: Fn(&T, &T) -> bool>(a: Seq<T>, b: Seq<T>, f: F, p: T, l: int, r: int)
    requires
        sides_permuted(a, b, l, r),
        three_way(b, f, p, l, r),
    ensures
        three_way(a, f, p, l, r),
{
    assert forall|i: int| 0 <= i < l implies lt(f, #[trigger] a[i], p) by {
        assert(a.subrange(0, l)[i] == a[i]);
        let j = lemma_perm_has(a.subrange(0, l), b.subrange(0, l), i);
        assert(b.subrange(0, l)[j] == b[j]);
    }
    assert forall|i: int| l <= i < r implies !lt(f, #[trigger] a[i], p) && !lt(f, p, a[i]) by {
        assert(a.subrange(l, r)[i - l] == a[i]);
        assert(b.subrange(l, r)[i - l] == b[i]);
    }
    assert forall|i: int| r <= i < a.len() implies lt(f, p, #[trigger] a[i]) by {
        assert(a.subrange(r, a.len() as int)[i - r] == a[i]);
        let j = lemma_perm_has(a.subrange(r, a.len() as int), b.subrange(r, b.len() as int), i - r);
        assert(b.subrange(r, b.len() as int)[j] == b[r + j]);
    }
}

/// A three-way partition whose outer parts are sorted is sorted.
pub proof fn lemma_join_sorted<T, F: Fn(&T, &T) -> bool>(s: Seq<T>, f: F, p: T, l: int, r: int)
    requires
        strict_weak_order::<T, F>(f),
        0 <= l <= r <= s.len(),
        three_way(s, f, p, l, r),
        sorted_by(s.subrange(0, l), f),
        sorted_by(s.subrange(r, s.len() as int), f),
    ensures
        sorted_by(s, f),
{
    assert forall|i: int, j: int| 0 <= i < j < s.len() implies !lt(f, #[trigger] s[j], #[trigger] s[i]) by {
        if j < l {
            assert(s.subrange(0, l)[i] == s[i]);
            assert(s.subrange(0, l)[j] == s[j]);
        } else if i >= r {
            assert(s.subrange(r, s.len() as int)[i - r] == s[i]);
            assert(s.subrange(r, s.len() as int)[j - r] == s[j]);
        } else if i >= l && j < r {
            lemma_not_before_trans(f, s[j], p, s[i]);
        } else if i < l && j < r {
            if lt(f, s[j], s[i]) {
                assert(lt(f, s[j], p));
            }
        } else if i < l {
            assert(lt(f, s[i], p));
            assert(lt(f, p, s[j]));
            assert(lt(f, s[i], s[j]));
            lemma_before_asym(f, s[i], s[j]);
        } else {
            if lt(f, s[j], s[i]) {
                assert(lt(f, p, s[i]));
            }
        }
    }
}

/// Sorts a range that is short enough to be sorted without splitting.  A
/// range that is not leftmost has a lower bound just before it; with safe
/// slices both kinds go through the same guarded sorts.
pub fn sort_range_by_less<T, F: Fn(&T, &T) -> bool>(slice: &mut [T], leftmost: bool, is_less: &F)
    requires
        callable::<T, F>(*is_less),
        strict_weak_order::<T, F>(*is_less),
    ensures
        final(slice)@.len() == old(slice)@.len(),
        perm(final(slice)@, old(slice)@),
        sorted_by(final(slice)@, *is_less),
{
    let len = slice.len();
    if len <= 1 {
        proof {
            assert(sorted_by(slice@, *is_less));
        }
        return;
    }
    if len < SORT_INSERTION_SORT_THRESHOLD && !leftmost {
        insertion_sort_by_less(slice, is_less);
        return;
    }
    sort_slice_by_less(slice, is_less);
}

/// Runs the give-up-early insertion sort on both sides of a partition;
/// returns whether both ended sorted.
fn partial_sort_sides<T, F: Fn(&T, &T) -> bool>(slice: &mut [T], left_len: usize, right_begin: usize, is_less: &F) -> (r: bool)
    requires
        callable::<T, F>(*is_less),
        left_len <= right_begin <= old(slice)@.len(),
    ensures
        sides_permuted(final(slice)@, old(slice)@, left_len as int, right_begin as int),
        r && strict_weak_order::<T, F>(*is_less) ==> {
            &&& sorted_by(final(slice)@.subrange(0, left_len as int), *is_less)
            &&& sorted_by(final(slice)@.subrange(right_begin as int, final(slice)@.len() as int), *is_less)
        },
        strict_weak_order::<T, F>(*is_less) ==> (r <==> {
            &&& inversions(old(slice)@.subrange(0, left_len as int), *is_less) <= SORT_PARTIAL_INSERTION_SORT_LIMIT
            &&& inversions(old(slice)@.subrange(right_begin as int, old(slice)@.len() as int), *is_less)
                <= SORT_PARTIAL_INSERTION_SORT_LIMIT
        }),
{
    let len = slice.len();
    let ghost s0 = slice@;
    let (left, rest) = slice.split_at_mut(left_len);
    let (mid, right) = rest.split_at_mut(right_begin - left_len);
    let ghost l0 = left@;
    let ghost r0 = right@;
    let left_sorted = if left_len <= 1 {
        proof {
            assert(sorted_by(left@, *is_less));
            lemma_sorted_no_inversions(left@, *is_less);
        }
        true
    } else {
        partial_insertion_sort_by_less(left, is_less)
    };
    let right_sorted = if len - right_begin <= 1 {
        proof {
            assert(sorted_by(right@, *is_less));
            lemma_sorted_no_inversions(right@, *is_less);
        }
        true
    } else {
        partial_insertion_sort_by_less(right, is_less)
    };
    let ghost l1 = left@;
    let ghost m1 = mid@;
    let ghost r1 = right@;
    proof {
        assert(l0 =~= s0.subrange(0, left_len as int));
        assert(m1 =~= s0.subrange(left_len as int, right_begin as int));
        assert(r0 =~= s0.subrange(right_begin as int, len as int));
        assert(slice@ =~= l1 + m1 + r1);
        assert(slice@.subrange(0, left_len as int) =~= l1);
        assert(slice@.subrange(left_len as int, right_begin as int) =~= m1);
        assert(slice@.subrange(right_begin as int, len as int) =~= r1);
    }
    left_sorted && right_sorted
}

/// Sorts both sides of a partition, each short enough to need no split.
fn sort_sides<T, F: Fn(&T, &T) -> bool>(slice: &mut [T], left_len: usize, right_begin: usize, leftmost: bool, is_less: &F)
    requires
        callable::<T, F>(*is_less),
        strict_weak_order::<T, F>(*is_less),
        left_len <= right_begin <= old(slice)@.len(),
    ensures
        sides_permuted(final(slice)@, old(slice)@, left_len as int, right_begin as int),
        sorted_by(final(slice)@.subrange(0, left_len as int), *is_less),
        sorted_by(final(slice)@.subrange(right_begin as int, final(slice)@.len() as int), *is_less),
{
    let len = slice.len();
    let ghost s0 = slice@;
    let (left, rest) = slice.split_at_mut(left_len);
    let (mid, right) = rest.split_at_mut(right_begin - left_len);
    let ghost l0 = left@;
    let ghost r0 = right@;
    if left_len > 1 {
        sort_range_by_less(left, leftmost, is_less);
    } else {
        proof {
            assert(sorted_by(left@, *is_less));
        }
    }
    if len - right_begin > 1 {
        sort_range_by_less(right, false, is_less);
    } else {
        proof {
            assert(sorted_by(right@, *is_less));
        }
    }
    let ghost l1 = left@;
    let ghost m1 = mid@;
    let ghost r1 = right@;
    proof {
        assert(l0 =~= s0.subrange(0, left_len as int));
        assert(m1 =~= s0.subrange(left_len as int, right_begin as int));
        assert(r0 =~= s0.subrange(right_begin as int, len as int));
        assert(slice@ =~= l1 + m1 + r1);
        assert(slice@.subrange(0, left_len as int) =~= l1);
        assert(slice@.subrange(left_len as int, right_begin as int) =~= m1);
        assert(slice@.subrange(right_begin as int, len as int) =~= r1);
    }
}

/// One round of the parallel quicksort on a range: sorts it outright when it
/// is short, out of bad-partition budget, or found already sorted, and
/// otherwise partitions it around a pivot and reports the two sides that
/// remain.  `pred` is the element just before the range when the range is
/// not leftmost; when the pivot is equivalent to it, the elements equivalent
/// to the pivot are gathered at the front instead, and only the rest remains.
pub fn quicksort_step_by_less<T, F: Fn(&T, &T) -> bool>(
    slice: &mut [T],
    pred: Option<&T>,
    budget: usize,
    sequential_cutoff: usize,
    is_less: &F,
) -> (r: QuicksortStep)
    requires
        callable::<T, F>(*is_less),
        strict_weak_order::<T, F>(*is_less),
        pred_ok(pred, old(slice)@, *is_less),
    ensures
        final(slice)@.len() == old(slice)@.len(),
        perm(final(slice)@, old(slice)@),
        r is Sorted ==> sorted_by(final(slice)@, *is_less),
        r matches QuicksortStep::Split { left_len, right_begin, budget: b } ==> {
            &&& left_len < right_begin <= final(slice)@.len()
            &&& 1 <= b <= budget
            &&& pivot_split(final(slice)@, *is_less, left_len as int, right_begin as int)
        },
{
    let ghost f = *is_less;
    let len = slice.len();
    if len <= 1 {
        proof {
            assert(sorted_by(slice@, f));
        }
        return QuicksortStep::Sorted;
    }
    if len <= sequential_cutoff {
        sort_range_by_less(slice, pred.is_none(), is_less);
        return QuicksortStep::Sorted;
    }
    if budget == 0 {
        heapsort_by_less(slice, is_less);
        return QuicksortStep::Sorted;
    }
    let ghost s0 = slice@;
    let pivot_index = choose_pivot_index_by_less(slice, is_less);
    let ghost s1 = slice@;
    match pred {
        Some(q) => {
            if is_equal_by_less(q, &slice[pivot_index], is_less) {
                let ghost p = slice@[pivot_index as int];
                let k = partition_equal_left_by_less(slice, pivot_index, is_less);
                proof {
                    let s2 = slice@;
                    assert forall|i: int| 0 <= i < s2.len() implies !lt(f, #[trigger] s2[i], p) by {
                        let j1 = lemma_perm_has(s2, s1, i);
                        let j0 = lemma_perm_has(s1, s0, j1);
                        assert(!lt(f, s0[j0], *q));
                        lemma_not_before_trans(f, s2[i], *q, p);
                    }
                    assert(three_way(s2, f, p, 0, k as int));
                    assert(pivot_split(s2, f, 0, k as int));
                }
                return QuicksortStep::Split { left_len: 0, right_begin: k, budget };
            }
        },
        None => {},
    }
    let ghost p = slice@[pivot_index as int];
    let partition = partition_by_less(slice, pivot_index, is_less);
    let left_len = partition.left_len;
    let right_begin = left_len + partition.equal_len;
    let right_len = len - right_begin;
    let mut budget = budget;
    let highly_unbalanced = left_len < len / SORT_IMBALANCED_PARTITION_DIVISOR
        || right_len < len / SORT_IMBALANCED_PARTITION_DIVISOR;
    if highly_unbalanced {
        budget = budget - 1;
        if budget == 0 {
            heapsort_by_less(slice, is_less);
            return QuicksortStep::Sorted;
        }
        let ghost s2 = slice@;
        break_patterns_by_less(slice, left_len, partition.equal_len);
        proof {
            lemma_sides_perm(slice@, s2, left_len as int, right_begin as int);
            lemma_sides_three_way(slice@, s2, f, p, left_len as int, right_begin as int);
        }
    } else if partition.already_partitioned {
        let ghost s2 = slice@;
        let both_sorted = partial_sort_sides(slice, left_len, right_begin, is_less);
        proof {
            lemma_sides_perm(slice@, s2, left_len as int, right_begin as int);
            lemma_sides_three_way(slice@, s2, f, p, left_len as int, right_begin as int);
        }
        if both_sorted {
            proof {
                lemma_join_sorted(slice@, f, p, left_len as int, right_begin as int);
            }
            return QuicksortStep::Sorted;
        }
    }
    if left_len <= sequential_cutoff && right_len <= sequential_cutoff {
        let ghost s3 = slice@;
        sort_sides(slice, left_len, right_begin, pred.is_none(), is_less);
        proof {
            lemma_sides_perm(slice@, s3, left_len as int, right_begin as int);
            lemma_sides_three_way(slice@, s3, f, p, left_len as int, right_begin as int);
            lemma_join_sorted(slice@, f, p, left_len as int, right_begin as int);
        }
        return QuicksortStep::Sorted;
    }
    proof {
        assert(three_way(slice@, f, p, left_len as int, right_begin as int));
        assert(pivot_split(slice@, f, left_len as int, right_begin as int));
    }
    QuicksortStep::Split { left_len, right_begin, budget }
}

/// Sorts a range by quicksort rounds: after each split the two sides are
/// independent (a worker pool may take one of them); here both are sorted
/// in turn.  Sorted and a permutation for every strict weak order.
pub fn quicksort_by_less<T, F: Fn(&T, &T) -> bool>(
    slice: &mut [T],
    pred: Option<&T>,
    budget: usize,
    sequential_cutoff: usize,
    is_less: &F,
)
    requires
        callable::<T, F>(*is_less),
        strict_weak_order::<T, F>(*is_less),
        pred_ok(pred, old(slice)@, *is_less),
    ensures
        final(slice)@.len() == old(slice)@.len(),
        perm(final(slice)@, old(slice)@),
        sorted_by(final(slice)@, *is_less),
    decreases old(slice)@.len(),
{
    let ghost f = *is_less;
    let ghost s0 = slice@;
    let step = quicksort_step_by_less(slice, pred, budget, sequential_cutoff, is_less);
    match step {
        QuicksortStep::Sorted => {},
        QuicksortStep::Split { left_len, right_begin, budget } => {
            let len = slice.len();
            let ghost s1 = slice@;
            let ghost p = choose|p: T| #[trigger] three_way(s1, f, p, left_len as int, right_begin as int);
            let (left, rest) = slice.split_at_mut(left_len);
            let (mid, right) = rest.split_at_mut(right_begin - left_len);
            let ghost l0 = left@;
            let ghost m0 = mid@;
            let ghost r0 = right@;
            proof {
                assert(l0 =~= s1.subrange(0, left_len as int));
                assert(m0 =~= s1.subrange(left_len as int, right_begin as int));
                assert(r0 =~= s1.subrange(right_begin as int, len as int));
                if pred.is_some() {
                    let q = pred.unwrap();
                    assert forall|i: int| 0 <= i < l0.len() implies !lt(f, #[trigger] l0[i], *q) by {
                        assert(l0[i] == s1[i]);
                        let j = lemma_perm_has(s1, s0, i);
                    }
                }
                let last = m0[m0.len() - 1];
                assert(m0[m0.len() - 1] == s1[right_begin - 1]);
                assert forall|i: int| 0 <= i < r0.len() implies !lt(f, #[trigger] r0[i], last) by {
                    assert(r0[i] == s1[right_begin + i]);
                    assert(lt(f, p, r0[i]));
                    assert(!lt(f, p, last));
                    if lt(f, r0[i], last) {
                        assert(lt(f, p, last));
                    }
                }
            }
            quicksort_by_less(left, pred, budget, sequential_cutoff, is_less);
            let last = mid.len() - 1;
            quicksort_by_less(right, Some(&mid[last]), budget, sequential_cutoff, is_less);
            let ghost l1 = left@;
            let ghost m1 = mid@;
            let ghost r1 = right@;
            proof {
                assert(slice@ =~= l1 + m1 + r1);
                assert(slice@.subrange(0, left_len as int) =~= l1);
                assert(slice@.subrange(left_len as int, right_begin as int) =~= m1);
                assert(slice@.subrange(right_begin as int, len as int) =~= r1);
                assert(sides_permuted(slice@, s1, left_len as int, right_begin as int));
                lemma_sides_perm(slice@, s1, left_len as int, right_begin as int);
                lemma_sides_three_way(slice@, s1, f, p, left_len as int, right_begin as int);
                lemma_join_sorted(slice@, f, p, left_len as int, right_begin as int);
            }
        },
    }
}

/// The range length up to which a sort on `workers` workers (at least one)
/// sorts sequentially: the chunk size the options give, but at least
/// `SORT_SEQUENTIAL_CUTOFF_PER_WORKER` per worker.
pub open spec fn spec_sort_cutoff(options: ParallelForOptions, len: nat, workers: nat) -> nat {
    let w = if workers > 1 { workers } else { 1 };
    let c = spec_resolve_chunk_size(options.chunk_size, len, w);
    let floor = (w * SORT_SEQUENTIAL_CUTOFF_PER_WORKER) as nat;
    if c > floor { c } else { floor }
}

pub fn sort_sequential_cutoff(options: ParallelForOptions, len: usize, workers: usize) -> (r: usize)
    requires
        (if workers > 1 { workers as nat } else { 1 }) * SORT_SEQUENTIAL_CUTOFF_PER_WORKER <= usize::MAX,
    ensures
        r == spec_sort_cutoff(options, len as nat, workers as nat),
{
    let w = if workers > 1 { workers } else { 1 };
    let c = options.resolve_chunk_size_for_workers(len, w);
    let floor = w * SORT_SEQUENTIAL_CUTOFF_PER_WORKER;
    if c > floor { c } else { floor }
}

/// Sorts `input` as a parallel sort on `workers` workers does: short inputs
/// (or a single worker) with the standard unstable sort, longer ones by
/// quicksort rounds whose sides a pool may sort concurrently.
pub fn parallel_sort_by_less<T, F: Fn(&T, &T) -> bool>(input: Vec<T>, workers: usize, options: ParallelForOptions, is_less: &F) -> (r: Vec<T>)
    requires
        callable::<T, F>(*is_less),
        strict_weak_order::<T, F>(*is_less),
        (if workers > 1 { workers as nat } else { 1 }) * SORT_SEQUENTIAL_CUTOFF_PER_WORKER <= usize::MAX,
    ensures
        perm(r@, input@),
        sorted_by(r@, *is_less),
        input@.len() <= 1 ==> r@ == input@,
{
    let mut input = input;
    let len = input.len();
    if len <= 1 {
        proof {
            assert(sorted_by(input@, *is_less));
        }
        return input;
    }
    let w = if workers > 1 { workers } else { 1 };
    let cutoff = sort_sequential_cutoff(options, len, w);
    if w <= 1 || len <= cutoff {
        sort_unstable_by_less(input.as_mut_slice(), is_less);
        return input;
    }
    let budget = initial_sort_bad_partition_budget(len);
    quicksort_by_less(input.as_mut_slice(), None, budget, cutoff, is_less);
    input
}

} // verus!
