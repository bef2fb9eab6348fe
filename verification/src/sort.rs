use vstd::prelude::*;

verus! {

broadcast use vstd::seq_lib::group_to_multiset_ensures;

/// `f` says `a` comes before `b`.
pub open spec fn lt<T, F: Fn(&T, &T) -> bool>(f: F, a: T, b: T) -> bool {
    call_ensures(f, (&a, &b), true)
}

/// `f` can be called on any two elements.
pub open spec fn callable<T, F: Fn(&T, &T) -> bool>(f: F) -> bool {
    forall|a: &T, b: &T| call_requires(f, (a, b))
}

/// `f` answers each question the same way every time, and the answers form a
/// strict weak order: nothing comes before itself, "comes before" is transitive,
/// and so is "does not come after".
pub open spec fn strict_weak_order<T, F: Fn(&T, &T) -> bool>(f: F) -> bool {
    &&& forall|a: T, b: T, r1: bool, r2: bool|
        call_ensures(f, (&a, &b), r1) && call_ensures(f, (&a, &b), r2) ==> r1 == r2
    &&& forall|a: T| !#[trigger] lt(f, a, a)
    &&& forall|a: T, b: T, c: T| #[trigger] lt(f, a, b) && #[trigger] lt(f, b, c) ==> lt(f, a, c)
    &&& forall|a: T, b: T, c: T|
        !#[trigger] lt(f, b, a) && !#[trigger] lt(f, c, b) ==> !lt(f, c, a)
}

/// No element of `s` comes before an earlier one.
pub open spec fn sorted_by<T, F: Fn(&T, &T) -> bool>(s: Seq<T>, f: F) -> bool {
    forall|i: int, j: int| 0 <= i < j < s.len() ==> !lt(f, #[trigger] s[j], #[trigger] s[i])
}

/// `a` and `b` hold the same elements, counted with multiplicity.
pub open spec fn perm<T>(a: Seq<T>, b: Seq<T>) -> bool {
    a.to_multiset() == b.to_multiset()
}

pub open spec fn swapped<T>(s: Seq<T>, i: int, j: int) -> Seq<T> {
    s.update(i, s[j]).update(j, s[i])
}

pub proof fn lemma_swap_perm<T>(s: Seq<T>, i: int, j: int)
    requires
        0 <= i < s.len(),
        0 <= j < s.len(),
    ensures
        perm(swapped(s, i, j), s),
{
    broadcast use vstd::multiset::group_multiset_axioms;
    let s1 = s.update(i, s[j]);
    if i == j {
        assert(swapped(s, i, j) =~= s);
    } else {
        assert(s1[j] == s[j]);
        assert(swapped(s, i, j).to_multiset() =~= s.to_multiset());
    }
}

/// Exchanges two elements of a slice (`<[T]>::swap`).
#[verifier::external_body]
pub(crate) fn slice_swap<T>(s: &mut [T], i: usize, j: usize)
    requires
        i < old(s)@.len(),
        j < old(s)@.len(),
    ensures
        final(s)@ == swapped(old(s)@, i as int, j as int),
{
    s.swap(i, j);
}

/// How many elements of `t` the element `x` comes before.
pub open spec fn count_before<T, F: Fn(&T, &T) -> bool>(t: Seq<T>, f: F, x: T) -> nat
    decreases t.len(),
{
    if t.len() == 0 {
        0
    } else {
        count_before(t.drop_last(), f, x) + if lt(f, x, t.last()) { 1nat } else { 0nat }
    }
}

/// The number of inversions of `s`: pairs of positions `i < j` whose
/// elements are out of order, `s[j]` coming before `s[i]`.
pub open spec fn inversions<T, F: Fn(&T, &T) -> bool>(s: Seq<T>, f: F) -> nat
    decreases s.len(),
{
    if s.len() == 0 {
        0
    } else {
        inversions(s.drop_last(), f) + count_before(s.drop_last(), f, s.last())
    }
}

proof fn lemma_count_before_concat<T, F: Fn(&T, &T) -> bool>(u: Seq<T>, v: Seq<T>, f: F, x: T)
    ensures
        count_before(u + v, f, x) == count_before(u, f, x) + count_before(v, f, x),
    decreases v.len(),
{
    if v.len() == 0 {
        assert(u + v =~= u);
    } else {
        assert((u + v).drop_last() =~= u + v.drop_last());
        assert((u + v).last() == v.last());
        lemma_count_before_concat(u, v.drop_last(), f, x);
    }
}

proof fn lemma_count_before_adjacent_swap<T, F: Fn(&T, &T) -> bool>(t: Seq<T>, c: int, f: F, x: T)
    requires
        1 <= c < t.len(),
    ensures
        count_before(swapped(t, c - 1, c), f, x) == count_before(t, f, x),
{
    let p = t.subrange(0, c - 1);
    let q = t.subrange(c + 1, t.len() as int);
    let ab = seq![t[c - 1], t[c]];
    let ba = seq![t[c], t[c - 1]];
    assert(t =~= p + ab + q);
    assert(swapped(t, c - 1, c) =~= p + ba + q);
    lemma_count_before_concat(p + ab, q, f, x);
    lemma_count_before_concat(p, ab, f, x);
    lemma_count_before_concat(p + ba, q, f, x);
    lemma_count_before_concat(p, ba, f, x);
    let a1 = seq![t[c - 1]];
    let b1 = seq![t[c]];
    assert(ab.drop_last() =~= a1);
    assert(ba.drop_last() =~= b1);
    assert(a1.drop_last() =~= Seq::<T>::empty());
    assert(b1.drop_last() =~= Seq::<T>::empty());
    assert(a1.last() == t[c - 1] && b1.last() == t[c]);
    assert(ab.last() == t[c] && ba.last() == t[c - 1]);
    assert(count_before(Seq::<T>::empty(), f, x) == 0);
    assert(count_before(a1, f, x) == if lt(f, x, t[c - 1]) { 1nat } else { 0nat });
    assert(count_before(b1, f, x) == if lt(f, x, t[c]) { 1nat } else { 0nat });
    assert(count_before(ab, f, x) == count_before(a1, f, x) + if lt(f, x, t[c]) { 1nat } else { 0nat });
    assert(count_before(ba, f, x) == count_before(b1, f, x) + if lt(f, x, t[c - 1]) { 1nat } else { 0nat });
}

/// Swapping two neighbours that are out of order removes exactly one
/// inversion.
pub proof fn lemma_inversions_swap<T, F: Fn(&T, &T) -> bool>(s: Seq<T>, c: int, f: F)
    requires
        strict_weak_order::<T, F>(f),
        1 <= c < s.len(),
        lt(f, s[c], s[c - 1]),
    ensures
        inversions(swapped(s, c - 1, c), f) + 1 == inversions(s, f),
    decreases s.len(),
{
    let t = swapped(s, c - 1, c);
    if s.len() == c + 1 {
        let p = s.subrange(0, c - 1);
        let a = s[c - 1];
        let b = s[c];
        assert(s.drop_last() =~= p.push(a));
        assert(t.drop_last() =~= p.push(b));
        assert(s.last() == b);
        assert(t.last() == a);
        assert(p.push(a).drop_last() =~= p);
        assert(p.push(b).drop_last() =~= p);
        assert(!lt(f, a, b)) by {
            if lt(f, a, b) {
                assert(lt(f, a, a));
            }
        }
        assert(inversions(p.push(a), f) == inversions(p, f) + count_before(p, f, a));
        assert(inversions(p.push(b), f) == inversions(p, f) + count_before(p, f, b));
        assert(count_before(p.push(a), f, b) == count_before(p, f, b) + 1);
        assert(count_before(p.push(b), f, a) == count_before(p, f, a));
        assert(inversions(s, f) == inversions(p.push(a), f) + count_before(p.push(a), f, b));
        assert(inversions(t, f) == inversions(p.push(b), f) + count_before(p.push(b), f, a));
    } else {
        assert(t.drop_last() =~= swapped(s.drop_last(), c - 1, c));
        assert(t.last() == s.last());
        lemma_inversions_swap(s.drop_last(), c, f);
        lemma_count_before_adjacent_swap(s.drop_last(), c, f, s.last());
    }
}

proof fn lemma_count_before_zero<T, F: Fn(&T, &T) -> bool>(t: Seq<T>, f: F, x: T)
    requires
        forall|i: int| 0 <= i < t.len() ==> !lt(f, x, #[trigger] t[i]),
    ensures
        count_before(t, f, x) == 0,
    decreases t.len(),
{
    if t.len() > 0 {
        assert(t.last() == t[t.len() - 1]);
        lemma_count_before_zero(t.drop_last(), f, x);
    }
}

/// A sorted sequence has no inversions.
pub proof fn lemma_sorted_no_inversions<T, F: Fn(&T, &T) -> bool>(s: Seq<T>, f: F)
    requires
        sorted_by(s, f),
    ensures
        inversions(s, f) == 0,
    decreases s.len(),
{
    if s.len() > 0 {
        let t = s.drop_last();
        assert forall|i: int, j: int| 0 <= i < j < t.len() implies !lt(f, #[trigger] t[j], #[trigger] t[i]) by {
            assert(s[i] == t[i] && s[j] == t[j]);
        }
        assert forall|i: int| 0 <= i < t.len() implies !lt(f, s.last(), #[trigger] t[i]) by {
            assert(s[i] == t[i]);
            assert(s[s.len() - 1] == s.last());
        }
        lemma_sorted_no_inversions(t, f);
        lemma_count_before_zero(t, f, s.last());
    }
}

/// Calls the comparator, which must answer for any two elements.
pub fn less<T, F: Fn(&T, &T) -> bool>(is_less: &F, a: &T, b: &T) -> (r: bool)
    requires
        callable::<T, F>(*is_less),
    ensures
        call_ensures(*is_less, (a, b), r),
        strict_weak_order::<T, F>(*is_less) ==> r == lt(*is_less, *a, *b),
{
    is_less(a, b)
}

/// Moves the element at `index` left past the elements it comes before, one
/// swap at a time, stopping early once `allowed` swaps have been made.
/// Returns the number of swaps and whether the element found its place.
pub fn insert_tail_by_less<T, F: Fn(&T, &T) -> bool>(slice: &mut [T], index: usize, allowed: usize, is_less: &F) -> (r: (usize, bool))
    requires
        callable::<T, F>(*is_less),
        1 <= index < old(slice)@.len(),
        allowed >= 1,
        strict_weak_order::<T, F>(*is_less) ==> sorted_by(old(slice)@.subrange(0, index as int), *is_less),
    ensures
        final(slice)@.len() == old(slice)@.len(),
        perm(final(slice)@, old(slice)@),
        r.0 <= allowed,
        r.0 <= index,
        !r.1 ==> r.0 == allowed,
        r.1 ==> r.0 < allowed,
        r.1 && strict_weak_order::<T, F>(*is_less) ==> sorted_by(final(slice)@.subrange(0, index as int + 1), *is_less),
        strict_weak_order::<T, F>(*is_less) ==> r.0 + inversions(final(slice)@, *is_less) == inversions(old(slice)@, *is_less),
{
    let ghost f = *is_less;
    let n = slice.len();
    let mut moves: usize = 0;
        let mut current = index;
        while current > 0 && less(is_less, &slice[current], &slice[current - 1])
            invariant
                0 <= current <= index < n,
                n == slice@.len(),
                n == old(slice)@.len(),
                moves + current == index,
                moves < allowed,
                1 <= index,
                f == *is_less,
                callable::<T, F>(f),
                perm(slice@, old(slice)@),
                strict_weak_order::<T, F>(f) ==> moves + inversions(slice@, f) == inversions(old(slice)@, f),
                strict_weak_order::<T, F>(f) ==> {
                    &&& sorted_by(slice@.subrange(0, current as int), f)
                    &&& sorted_by(slice@.subrange(current as int + 1, index as int + 1), f)
                    &&& forall|a: int, b: int| 0 <= a < current && current < b <= index ==> !lt(f, #[trigger] slice@[b], #[trigger] slice@[a])
                    &&& forall|b: int| current < b <= index ==> !lt(f, #[trigger] slice@[b], slice@[current as int])
                },
            decreases current,
        {
            let ghost before = slice@;
            slice_swap(slice, current, current - 1);
            proof {
                lemma_swap_perm(before, current as int, current - 1);
                if strict_weak_order::<T, F>(f) {
                    let s = slice@;
                    let c = current as int;
                    assert(lt(f, before[c], before[c - 1]));
                    assert(s =~= swapped(before, c - 1, c));
                    lemma_inversions_swap(before, c, f);
                    assert forall|i: int, j: int| 0 <= i < j < s.subrange(c, index as int + 1).len() implies !lt(f, #[trigger] s.subrange(c, index as int + 1)[j], #[trigger] s.subrange(c, index as int + 1)[i]) by {
                        let a = c + i;
                        let b = c + j;
                        assert(s.subrange(c, index as int + 1)[i] == s[a]);
                        assert(s.subrange(c, index as int + 1)[j] == s[b]);
                        assert(s[b] == before[b]);
                        if a == c {
                            // s[c] is the element that moved right
                            assert(s[c] == before[c - 1]);
                            assert(!lt(f, before[b], before[c - 1]));
                        } else {
                            assert(s[a] == before[a]);
                            assert(before.subrange(c + 1, index as int + 1)[a - c - 1] == before[a]);
                            assert(before.subrange(c + 1, index as int + 1)[b - c - 1] == before[b]);
                        }
                    }
                    assert forall|i: int, j: int| 0 <= i < j < s.subrange(0, c - 1).len() implies !lt(f, #[trigger] s.subrange(0, c - 1)[j], #[trigger] s.subrange(0, c - 1)[i]) by {
                        assert(before.subrange(0, c)[i] == s[i]);
                        assert(before.subrange(0, c)[j] == s[j]);
                    }
                    assert forall|a: int, b: int| 0 <= a < c - 1 && c - 1 < b <= index implies !lt(f, #[trigger] s[b], #[trigger] s[a]) by {
                        if b == c {
                            assert(s[b] == before[c - 1]);
                            assert(before.subrange(0, c)[a] == before[a]);
                            assert(before.subrange(0, c)[c - 1] == before[c - 1]);
                        } else {
                            assert(s[b] == before[b]);
                        }
                    }
                    assert forall|b: int| c - 1 < b <= index implies !lt(f, #[trigger] s[b], s[c - 1]) by {
                        assert(s[c - 1] == before[c]);
                        if b == c {
                            assert(s[b] == before[c - 1]);
                            assert(lt(f, before[c], before[c - 1]));
                        } else {
                            assert(s[b] == before[b]);
                        }
                    }
                }
            }
            current = current - 1;
            moves = moves + 1;
            if moves == allowed {
                return (moves, false);
            }
        }
        proof {
            if strict_weak_order::<T, F>(f) {
                let s = slice@;
                let c = current as int;
                assert forall|i: int, j: int| 0 <= i < j < s.subrange(0, index as int + 1).len() implies !lt(f, #[trigger] s.subrange(0, index as int + 1)[j], #[trigger] s.subrange(0, index as int + 1)[i]) by {
                    assert(s.subrange(0, index as int + 1)[i] == s[i]);
                    assert(s.subrange(0, index as int + 1)[j] == s[j]);
                    if j < c {
                        assert(s.subrange(0, c)[i] == s[i]);
                        assert(s.subrange(0, c)[j] == s[j]);
                    } else if i > c {
                        assert(s.subrange(c + 1, index as int + 1)[i - c - 1] == s[i]);
                        assert(s.subrange(c + 1, index as int + 1)[j - c - 1] == s[j]);
                    } else if i == c {
                    } else if j == c {
                        // the inserted element does not come before its left neighbour
                        if c > 0 {
                            assert(!lt(f, s[c], s[c - 1]));
                            if i < c - 1 {
                                assert(s.subrange(0, c)[i] == s[i]);
                                assert(s.subrange(0, c)[c - 1] == s[c - 1]);
                                assert(!lt(f, s[c - 1], s[i]));
                            }
                        }
                    } else {
                    }
                }
            }
        }
        (moves, true)
}

/// Sorts by repeatedly moving each element left past the elements it comes
/// before.  Always a permutation; sorted when the comparator is a strict weak order.
pub fn insertion_sort_by_less<T, F: Fn(&T, &T) -> bool>(slice: &mut [T], is_less: &F)
    requires
        callable::<T, F>(*is_less),
    ensures
        final(slice)@.len() == old(slice)@.len(),
        perm(final(slice)@, old(slice)@),
        strict_weak_order::<T, F>(*is_less) ==> sorted_by(final(slice)@, *is_less),
{
    let n = slice.len();
    if n < 2 {
        proof {
            assert(sorted_by(slice@, *is_less));
        }
        return;
    }
    let ghost f = *is_less;
    let mut index: usize = 1;
    while index < n
        invariant
            1 <= index <= n,
            n == slice@.len(),
            f == *is_less,
            callable::<T, F>(f),
            perm(slice@, old(slice)@),
            strict_weak_order::<T, F>(f) ==> sorted_by(slice@.subrange(0, index as int), f),
        decreases n - index,
    {
        let _ = insert_tail_by_less(slice, index, n, is_less);
        index = index + 1;
    }
    proof {
        assert(slice@.subrange(0, n as int) =~= slice@);
    }
}

/// Insertion sort that gives up after a few element moves; returns whether
/// it finished.  Always a permutation; sorted when it finished and the
/// comparator is a strict weak order.
pub fn partial_insertion_sort_by_less<T, F: Fn(&T, &T) -> bool>(slice: &mut [T], is_less: &F) -> (done: bool)
    requires
        callable::<T, F>(*is_less),
    ensures
        final(slice)@.len() == old(slice)@.len(),
        perm(final(slice)@, old(slice)@),
        done && strict_weak_order::<T, F>(*is_less) ==> sorted_by(final(slice)@, *is_less),
        strict_weak_order::<T, F>(*is_less) ==> (done <==> inversions(old(slice)@, *is_less)
            <= SORT_PARTIAL_INSERTION_SORT_LIMIT),
        strict_weak_order::<T, F>(*is_less) && !done ==> inversions(final(slice)@, *is_less)
            + SORT_PARTIAL_INSERTION_SORT_LIMIT + 1 == inversions(old(slice)@, *is_less),
{
    let n = slice.len();
    if n < 2 {
        proof {
            assert(sorted_by(slice@, *is_less));
            lemma_sorted_no_inversions(slice@, *is_less);
        }
        return true;
    }
    let ghost f = *is_less;
    let mut moves: usize = 0;
    let mut index: usize = 1;
    while index < n
        invariant
            1 <= index <= n,
            n == slice@.len(),
            n == old(slice)@.len(),
            f == *is_less,
            callable::<T, F>(f),
            moves <= SORT_PARTIAL_INSERTION_SORT_LIMIT,
            perm(slice@, old(slice)@),
            strict_weak_order::<T, F>(f) ==> sorted_by(slice@.subrange(0, index as int), f),
            strict_weak_order::<T, F>(f) ==> moves + inversions(slice@, f) == inversions(old(slice)@, f),
        decreases n - index,
    {
        if !less(is_less, &slice[index], &slice[index - 1]) {
            proof {
                if strict_weak_order::<T, F>(f) {
                    lemma_extend_sorted(slice@, f, index as int);
                }
            }
            index = index + 1;
            continue;
        }
        let (k, finished) = insert_tail_by_less(slice, index, SORT_PARTIAL_INSERTION_SORT_LIMIT + 1 - moves, is_less);
        moves = moves + k;
        if !finished {
            return false;
        }
        index = index + 1;
    }
    proof {
        assert(slice@.subrange(0, n as int) =~= slice@);
        if strict_weak_order::<T, F>(f) {
            lemma_sorted_no_inversions(slice@, f);
        }
    }
    true
}

/// A sorted prefix followed by an element that does not come before its
/// left neighbour is a longer sorted prefix.
pub proof fn lemma_extend_sorted<T, F: Fn(&T, &T) -> bool>(s: Seq<T>, f: F, index: int)
    requires
        strict_weak_order::<T, F>(f),
        1 <= index < s.len(),
        sorted_by(s.subrange(0, index), f),
        !lt(f, s[index], s[index - 1]),
    ensures
        sorted_by(s.subrange(0, index + 1), f),
{
    assert forall|i: int, j: int| 0 <= i < j < s.subrange(0, index + 1).len() implies !lt(f, #[trigger] s.subrange(0, index + 1)[j], #[trigger] s.subrange(0, index + 1)[i]) by {
        assert(s.subrange(0, index + 1)[i] == s[i]);
        assert(s.subrange(0, index + 1)[j] == s[j]);
        if j < index {
            assert(s.subrange(0, index)[i] == s[i]);
            assert(s.subrange(0, index)[j] == s[j]);
        } else if i < index - 1 {
            assert(s.subrange(0, index)[i] == s[i]);
            assert(s.subrange(0, index)[index - 1] == s[index - 1]);
            assert(!lt(f, s[index - 1], s[i]));
        }
    }
}

/// Where a three-way partition put things.
pub struct PartitionResult {
    pub left_len: usize,
    pub equal_len: usize,
    pub already_partitioned: bool,
}

/// `s` is split at `left` and `right`: elements before `left` come before `p`,
/// elements from `right` on come after it, those between are equivalent to it.
pub open spec fn three_way<T, F: Fn(&T, &T) -> bool>(s: Seq<T>, f: F, p: T, left: int, right: int) -> bool {
    &&& forall|i: int| 0 <= i < left ==> lt(f, #[trigger] s[i], p)
    &&& forall|i: int| left <= i < right ==> !lt(f, #[trigger] s[i], p) && !lt(f, p, s[i])
    &&& forall|i: int| right <= i < s.len() ==> lt(f, p, #[trigger] s[i])
}

/// Partitions around the element at `pivot_index` into the elements that come
/// before it, those equivalent to it, and those that come after it.  Reports
/// whether nothing had to move.
pub fn partition_by_less<T, F: Fn(&T, &T) -> bool>(slice: &mut [T], pivot_index: usize, is_less: &F) -> (r: PartitionResult)
    requires
        callable::<T, F>(*is_less),
        pivot_index < old(slice)@.len(),
    ensures
        final(slice)@.len() == old(slice)@.len(),
        perm(final(slice)@, old(slice)@),
        r.left_len + r.equal_len <= final(slice)@.len(),
        r.equal_len >= 1,
        r.already_partitioned ==> final(slice)@ == old(slice)@,
        strict_weak_order::<T, F>(*is_less) ==> three_way(final(slice)@, *is_less, old(slice)@[pivot_index as int], r.left_len as int, (r.left_len + r.equal_len) as int),
{
    let ghost f = *is_less;
    let ghost p = slice@[pivot_index as int];
    let len = slice.len();
    let pivot_slot = len - 1;
    let mut already_partitioned = true;
    if pivot_index != pivot_slot {
        let ghost before = slice@;
        slice_swap(slice, pivot_index, pivot_slot);
        proof { lemma_swap_perm(before, pivot_index as int, pivot_slot as int); }
        already_partitioned = false;
    }
    let mut less_end: usize = 0;
    let mut scan: usize = 0;
    let mut greater: usize = pivot_slot;
    while scan < greater
        invariant
            len == slice@.len(),
            pivot_slot == len - 1,
            less_end <= scan <= greater <= pivot_slot,
            f == *is_less,
            callable::<T, F>(f),
            slice@[pivot_slot as int] == p,
            perm(slice@, old(slice)@),
            already_partitioned ==> slice@ == old(slice)@,
            strict_weak_order::<T, F>(f) ==> {
                &&& forall|i: int| 0 <= i < less_end ==> lt(f, #[trigger] slice@[i], p)
                &&& forall|i: int| less_end <= i < scan ==> !lt(f, #[trigger] slice@[i], p) && !lt(f, p, slice@[i])
                &&& forall|i: int| greater <= i < pivot_slot ==> lt(f, p, #[trigger] slice@[i])
            },
        decreases greater - scan,
    {
        if less(is_less, &slice[scan], &slice[pivot_slot]) {
            if scan != less_end {
                let ghost before = slice@;
                slice_swap(slice, scan, less_end);
                proof { lemma_swap_perm(before, scan as int, less_end as int); }
                already_partitioned = false;
            }
            less_end = less_end + 1;
            scan = scan + 1;
        } else if less(is_less, &slice[pivot_slot], &slice[scan]) {
            greater = greater - 1;
            if scan != greater {
                let ghost before = slice@;
                slice_swap(slice, scan, greater);
                proof { lemma_swap_perm(before, scan as int, greater as int); }
                already_partitioned = false;
            }
        } else {
            scan = scan + 1;
        }
    }
    if greater != pivot_slot {
        let ghost before = slice@;
        slice_swap(slice, greater, pivot_slot);
        proof {
            lemma_swap_perm(before, greater as int, pivot_slot as int);
        }
        already_partitioned = false;
    }
    proof {
        if strict_weak_order::<T, F>(f) {
            assert(!lt(f, p, p));
            assert forall|i: int| less_end <= i < greater + 1 implies !lt(f, #[trigger] slice@[i], p) && !lt(f, p, slice@[i]) by {
                if i == greater {
                    assert(slice@[i] == p);
                }
            }
        }
    }
    PartitionResult { left_len: less_end, equal_len: greater + 1 - less_end, already_partitioned }
}

/// Moves the element at `pivot_index` to the front and gathers every element
/// that does not come after it there; returns how many that is (the pivot
/// included).  Used when the pivot is known to be no greater than anything in
/// the slice, so the gathered elements are all equivalent to it.
pub fn partition_equal_left_by_less<T, F: Fn(&T, &T) -> bool>(slice: &mut [T], pivot_index: usize, is_less: &F) -> (r: usize)
    requires
        callable::<T, F>(*is_less),
        pivot_index < old(slice)@.len(),
    ensures
        final(slice)@.len() == old(slice)@.len(),
        perm(final(slice)@, old(slice)@),
        1 <= r <= final(slice)@.len(),
        strict_weak_order::<T, F>(*is_less) ==> {
            let p = old(slice)@[pivot_index as int];
            &&& forall|i: int| 0 <= i < r ==> !lt(*is_less, p, #[trigger] final(slice)@[i])
            &&& forall|i: int| r <= i < final(slice)@.len() ==> lt(*is_less, p, #[trigger] final(slice)@[i])
        },
{
    let ghost f = *is_less;
    let ghost p = slice@[pivot_index as int];
    let len = slice.len();
    if pivot_index != 0 {
        let ghost before = slice@;
        slice_swap(slice, 0, pivot_index);
        proof { lemma_swap_perm(before, 0, pivot_index as int); }
    }
    let mut equal: usize = 0;
    let mut scan: usize = 1;
    let mut greater: usize = len;
    while scan < greater
        invariant
            len == slice@.len(),
            1 <= scan <= greater <= len,
            equal + 1 == scan,
            f == *is_less,
            callable::<T, F>(f),
            slice@[0] == p,
            perm(slice@, old(slice)@),
            strict_weak_order::<T, F>(f) ==> {
                &&& forall|i: int| 1 <= i < scan ==> !lt(f, p, #[trigger] slice@[i])
                &&& forall|i: int| greater <= i < len ==> lt(f, p, #[trigger] slice@[i])
            },
        decreases greater - scan,
    {
        if less(is_less, &slice[0], &slice[scan]) {
            greater = greater - 1;
            if scan != greater {
                let ghost before = slice@;
                slice_swap(slice, scan, greater);
                proof { lemma_swap_perm(before, scan as int, greater as int); }
            }
        } else {
            equal = equal + 1;
            if scan != equal {
                let ghost before = slice@;
                slice_swap(slice, scan, equal);
                proof { lemma_swap_perm(before, scan as int, equal as int); }
            }
            scan = scan + 1;
        }
    }
    if equal != 0 {
        let ghost before = slice@;
        slice_swap(slice, 0, equal);
        proof { lemma_swap_perm(before, 0, equal as int); }
    }
    proof {
        if strict_weak_order::<T, F>(f) {
            assert(!lt(f, p, p));
            assert forall|i: int| 0 <= i < equal + 1 implies !lt(f, p, #[trigger] slice@[i]) by {
                if i == equal {
                    assert(slice@[i] == p);
                }
            }
        }
    }
    equal + 1
}

/// `s` with positions `a` and `b` swapped when the element at `b` comes
/// before the one at `a`.
pub open spec fn sorted2<T, F: Fn(&T, &T) -> bool>(s: Seq<T>, f: F, a: int, b: int) -> Seq<T> {
    if lt(f, s[b], s[a]) {
        swapped(s, a, b)
    } else {
        s
    }
}

/// `s` after ordering positions `a`, `b`, `c`: `a` with `b`, `b` with `c`,
/// then `a` with `b` again.
pub open spec fn sorted3<T, F: Fn(&T, &T) -> bool>(s: Seq<T>, f: F, a: int, b: int, c: int) -> Seq<T> {
    sorted2(sorted2(sorted2(s, f, a, b), f, b, c), f, a, b)
}

/// `s` after a pivot was chosen and moved to the front: for fewer than
/// `SORT_NINTHER_THRESHOLD` elements the middle, first and last positions
/// are ordered (so the median of the three lands at the front); otherwise
/// three triples around the first, middle and last positions are ordered,
/// then the middle triple, and the median of medians is swapped to the front.
pub open spec fn pivot_chosen<T, F: Fn(&T, &T) -> bool>(s: Seq<T>, f: F) -> Seq<T> {
    let len = s.len() as int;
    let mid = len / 2;
    if len < SORT_NINTHER_THRESHOLD {
        sorted3(s, f, mid, 0, len - 1)
    } else {
        let t = sorted3(
            sorted3(sorted3(sorted3(s, f, 0, mid, len - 1), f, 1, mid - 1, len - 2), f, 2, mid + 1, len - 3),
            f,
            mid - 1,
            mid,
            mid + 1,
        );
        swapped(t, 0, mid)
    }
}

/// Swaps `a` and `b` when `b` comes before `a`.
pub fn sort2_by_less<T, F: Fn(&T, &T) -> bool>(slice: &mut [T], a: usize, b: usize, is_less: &F)
    requires
        callable::<T, F>(*is_less),
        a < old(slice)@.len(),
        b < old(slice)@.len(),
    ensures
        perm(final(slice)@, old(slice)@),
        final(slice)@.len() == old(slice)@.len(),
        final(slice)@ == old(slice)@ || final(slice)@ == swapped(old(slice)@, a as int, b as int),
        strict_weak_order::<T, F>(*is_less) && a != b ==> !lt(*is_less, final(slice)@[b as int], final(slice)@[a as int]),
        strict_weak_order::<T, F>(*is_less) ==> final(slice)@ == sorted2(old(slice)@, *is_less, a as int, b as int),
{
    if less(is_less, &slice[b], &slice[a]) {
        let ghost before = slice@;
        slice_swap(slice, a, b);
        proof {
            lemma_swap_perm(before, a as int, b as int);
            if strict_weak_order::<T, F>(*is_less) {
                assert(lt(*is_less, before[b as int], before[a as int]));
                if lt(*is_less, before[a as int], before[b as int]) {
                    assert(lt(*is_less, before[b as int], before[b as int]));
                }
            }
        }
    }
}

/// Orders three positions: afterwards the middle one is the median of the three.
pub fn sort3_by_less<T, F: Fn(&T, &T) -> bool>(slice: &mut [T], a: usize, b: usize, c: usize, is_less: &F)
    requires
        callable::<T, F>(*is_less),
        a < old(slice)@.len(),
        b < old(slice)@.len(),
        c < old(slice)@.len(),
    ensures
        perm(final(slice)@, old(slice)@),
        final(slice)@.len() == old(slice)@.len(),
        forall|i: int| 0 <= i < old(slice)@.len() && i != a && i != b && i != c ==> #[trigger] final(slice)@[i] == old(slice)@[i],
        strict_weak_order::<T, F>(*is_less) ==> final(slice)@ == sorted3(old(slice)@, *is_less, a as int, b as int, c as int),
        strict_weak_order::<T, F>(*is_less) && a != b && b != c && a != c ==> {
            &&& !lt(*is_less, final(slice)@[b as int], final(slice)@[a as int])
            &&& !lt(*is_less, final(slice)@[c as int], final(slice)@[b as int])
        },
{
    let ghost s0 = slice@;
    sort2_by_less(slice, a, b, is_less);
    let ghost x = slice@;
    sort2_by_less(slice, b, c, is_less);
    let ghost y = slice@;
    sort2_by_less(slice, a, b, is_less);
    proof {
        let f = *is_less;
        if strict_weak_order::<T, F>(f) && a != b && b != c && a != c {
            let z = slice@;
            // after the second step, y[c] is the larger of x[b] and x[c], and x[a] <= x[b]
            assert(!lt(f, x[b as int], x[a as int]));
            assert(!lt(f, y[c as int], y[b as int]));
            assert(y[a as int] == x[a as int]);
            assert(!lt(f, y[c as int], x[b as int]));
            assert(!lt(f, y[c as int], y[a as int]));
            assert(z[c as int] == y[c as int]);
            assert(z[b as int] == y[a as int] || z[b as int] == y[b as int]);
        }
    }
}

/// Picks a pivot and moves it to the front: for short slices the median of the
/// first, middle and last elements; for long ones the median of three medians
/// (a ninther).  Returns the pivot's position, always 0.
pub fn choose_pivot_index_by_less<T, F: Fn(&T, &T) -> bool>(slice: &mut [T], is_less: &F) -> (r: usize)
    requires
        callable::<T, F>(*is_less),
        old(slice)@.len() >= 1,
    ensures
        final(slice)@.len() == old(slice)@.len(),
        perm(final(slice)@, old(slice)@),
        r == 0,
        strict_weak_order::<T, F>(*is_less) ==> final(slice)@ == pivot_chosen(old(slice)@, *is_less),
{
    let len = slice.len();
    let mid = len / 2;
    if len < SORT_NINTHER_THRESHOLD {
        sort3_by_less(slice, mid, 0, len - 1, is_less);
        return 0;
    }
    let ghost s0 = slice@;
    sort3_by_less(slice, 0, mid, len - 1, is_less);
    sort3_by_less(slice, 1, mid - 1, len - 2, is_less);
    sort3_by_less(slice, 2, mid + 1, len - 3, is_less);
    sort3_by_less(slice, mid - 1, mid, mid + 1, is_less);
    let ghost before = slice@;
    slice_swap(slice, 0, mid);
    proof { lemma_swap_perm(before, 0, mid as int); }
    0
}

pub const SORT_INSERTION_SORT_THRESHOLD: usize = 24;
pub const SORT_PARTIAL_INSERTION_SORT_LIMIT: usize = 8;
pub const SORT_NINTHER_THRESHOLD: usize = 128;
pub const SORT_IMBALANCED_PARTITION_DIVISOR: usize = 8;
pub const SORT_SEQUENTIAL_CUTOFF_PER_WORKER: usize = 32768;

/// After an unbalanced partition, swaps a few elements of each long side to
/// break up patterns that keep choosing bad pivots.  Each side is only
/// rearranged within itself; the equal run between them stays put.
pub fn break_patterns_by_less<T>(slice: &mut [T], left_len: usize, equal_len: usize)
    requires
        left_len + equal_len <= old(slice)@.len(),
    ensures
        final(slice)@.len() == old(slice)@.len(),
        sides_permuted(final(slice)@, old(slice)@, left_len as int, (left_len + equal_len) as int),
        final(slice)@ == broken_patterns(old(slice)@, left_len as int, equal_len as int),
{
    let len = slice.len();
    let right_begin = left_len + equal_len;
    let right_len = len - right_begin;
    let ghost s0 = slice@;
    let (left, rest) = slice.split_at_mut(left_len);
    let (mid, right) = rest.split_at_mut(equal_len);
    let ghost l0 = left@;
    let ghost r0 = right@;
    if left_len >= SORT_INSERTION_SORT_THRESHOLD {
        break_side(left);
    }
    if right_len >= SORT_INSERTION_SORT_THRESHOLD {
        break_side(right);
    }
    let ghost l1 = left@;
    let ghost m1 = mid@;
    let ghost r1 = right@;
    proof {
        assert(l0 =~= s0.subrange(0, left_len as int));
        assert(m1 =~= s0.subrange(left_len as int, right_begin as int));
        assert(r0 =~= s0.subrange(right_begin as int, len as int));
        assert(slice@ =~= l1 + m1 + r1);
        assert(slice@.subrange(0, left_len as int) =~= l1);
        assert(slice@.subrange(left_len as int, right_begin as int) =~= m1);
        assert(slice@.subrange(right_begin as int, len as int) =~= r1);
    }
}

/// `a` is `b` with the part before `l` and the part from `r` on each
/// permuted in place, and the part between them unchanged.
pub open spec fn sides_permuted<T>(a: Seq<T>, b: Seq<T>, l: int, r: int) -> bool {
    &&& 0 <= l <= r <= b.len()
    &&& a.len() == b.len()
    &&& perm(a.subrange(0, l), b.subrange(0, l))
    &&& a.subrange(l, r) == b.subrange(l, r)
    &&& perm(a.subrange(r, a.len() as int), b.subrange(r, b.len() as int))
}

/// `s` after the swaps that break patterns on one side of `n >= 24`
/// elements: the first and last elements with those a quarter in, and on a
/// side longer than the ninther threshold two more at each end.
pub open spec fn broken_side<T>(s: Seq<T>) -> Seq<T> {
    let n = s.len() as int;
    let q = n / 4;
    let t = swapped(swapped(s, 0, q), n - 1, n - q);
    if n > SORT_NINTHER_THRESHOLD {
        swapped(swapped(swapped(swapped(t, 1, 1 + q), 2, 2 + q), n - 2, n - (1 + q)), n - 3, n - (2 + q))
    } else {
        t
    }
}

/// `s` after breaking patterns on each side of a partition with `left_len`
/// elements before and `equal_len` equivalent ones after them: each side of
/// at least the insertion-sort threshold is broken up, the rest is kept.
pub open spec fn broken_patterns<T>(s: Seq<T>, left_len: int, equal_len: int) -> Seq<T> {
    let right_begin = left_len + equal_len;
    let left = s.subrange(0, left_len);
    let right = s.subrange(right_begin, s.len() as int);
    (if left_len >= SORT_INSERTION_SORT_THRESHOLD { broken_side(left) } else { left })
        + s.subrange(left_len, right_begin)
        + (if right.len() >= SORT_INSERTION_SORT_THRESHOLD { broken_side(right) } else { right })
}

/// The swaps on one side of a partition.
fn break_side<T>(slice: &mut [T])
    requires
        old(slice)@.len() >= SORT_INSERTION_SORT_THRESHOLD,
    ensures
        perm(final(slice)@, old(slice)@),
        final(slice)@.len() == old(slice)@.len(),
        final(slice)@ == broken_side(old(slice)@),
{
    let n = slice.len();
    let q = n / 4;
    swap_tracked(slice, 0, q);
    swap_tracked(slice, n - 1, n - q);
    if n > SORT_NINTHER_THRESHOLD {
        swap_tracked(slice, 1, 1 + q);
        swap_tracked(slice, 2, 2 + q);
        swap_tracked(slice, n - 2, n - (1 + q));
        swap_tracked(slice, n - 3, n - (2 + q));
    }
}

/// Swaps two elements, keeping the multiset of the slice.
pub fn swap_tracked<T>(slice: &mut [T], i: usize, j: usize)
    requires
        i < old(slice)@.len(),
        j < old(slice)@.len(),
    ensures
        final(slice)@ == swapped(old(slice)@, i as int, j as int),
        final(slice)@.len() == old(slice)@.len(),
        perm(final(slice)@, old(slice)@),
{
    let ghost before = slice@;
    slice_swap(slice, i, j);
    proof { lemma_swap_perm(before, i as int, j as int); }
}

/// Twice the floor of the binary logarithm of `len` (0 for 0): how many badly
/// unbalanced partitions a sort tolerates before it falls back to heapsort.
pub open spec fn spec_log2(n: nat) -> nat
    decreases n,
{
    if n <= 1 { 0 } else { 1 + spec_log2(n / 2) }
}

pub open spec fn p2(k: nat) -> nat
    decreases k,
{
    if k == 0 { 1 } else { 2 * p2((k - 1) as nat) }
}

proof fn lemma_log2_below(n: nat, k: nat)
    requires
        n < p2(k),
        k > 0,
    ensures
        spec_log2(n) < k,
    decreases k,
{
    if n > 1 {
        assert(p2(k) == 2 * p2((k - 1) as nat));
        if k == 1 {
            assert(p2(0) == 1);
        } else {
            assert(n / 2 < p2((k - 1) as nat));
            lemma_log2_below(n / 2, (k - 1) as nat);
        }
    }
}

pub fn initial_sort_bad_partition_budget(len: usize) -> (r: usize)
    ensures
        r == 2 * spec_log2(len as nat),
{
    proof {
        reveal_with_fuel(p2, 65);
        assert(p2(64) == 0x1_0000_0000_0000_0000);
        lemma_log2_below(len as nat, 64);
    }
    let mut n = len;
    let mut log: usize = 0;
    while n > 1
        invariant
            log + spec_log2(n as nat) == spec_log2(len as nat),
            log <= 64,
            spec_log2(n as nat) + log <= 64,
        decreases n,
    {
        n = n / 2;
        log = log + 1;
    }
    log * 2
}

} // verus!
