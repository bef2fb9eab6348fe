use vstd::prelude::*;
use crate::sort::{lt, callable, strict_weak_order, sorted_by, perm, swapped, lemma_swap_perm, slice_swap, less};

verus! {

broadcast use vstd::seq_lib::group_to_multiset_ensures;

/// Node `i` of the implicit binary heap in `s[..end]` is not before either of
/// its children.
pub open spec fn heap_at<T, F: Fn(&T, &T) -> bool>(s: Seq<T>, f: F, i: int, end: int) -> bool {
    &&& 2 * i + 1 < end ==> !lt(f, s[i], s[2 * i + 1])
    &&& 2 * i + 2 < end ==> !lt(f, s[i], s[2 * i + 2])
}

/// Every node of `s[..end]` from `start` on keeps the heap order.
pub open spec fn heap_from<T, F: Fn(&T, &T) -> bool>(s: Seq<T>, f: F, start: int, end: int) -> bool {
    forall|i: int| start <= i < end ==> #[trigger] heap_at(s, f, i, end)
}

/// Under a strict weak order, "not before" is transitive.
pub proof fn lemma_not_before_trans<T, F: Fn(&T, &T) -> bool>(f: F, a: T, b: T, c: T)
    requires
        strict_weak_order::<T, F>(f),
        !lt(f, a, b),
        !lt(f, b, c),
    ensures
        !lt(f, a, c),
{
}

/// Under a strict weak order, "before" is asymmetric.
pub proof fn lemma_before_asym<T, F: Fn(&T, &T) -> bool>(f: F, a: T, b: T)
    requires
        strict_weak_order::<T, F>(f),
        lt(f, a, b),
    ensures
        !lt(f, b, a),
{
    if lt(f, b, a) {
        assert(lt(f, a, a));
    }
}

/// In a heap, the root is not before any element.
pub proof fn lemma_heap_root_max<T, F: Fn(&T, &T) -> bool>(s: Seq<T>, f: F, end: int, k: int)
    requires
        strict_weak_order::<T, F>(f),
        heap_from(s, f, 0, end),
        0 <= k < end,
        end <= s.len(),
    ensures
        !lt(f, s[0], s[k]),
    decreases k,
{
    if k > 0 {
        let p = (k - 1) / 2;
        lemma_heap_root_max(s, f, end, p);
        assert(heap_at(s, f, p, end));
        assert(k == 2 * p + 1 || k == 2 * p + 2);
        lemma_not_before_trans(f, s[0], s[p], s[k]);
    }
}

/// An element of a permutation of `b` occurs in `b`.
pub proof fn lemma_perm_has<T>(a: Seq<T>, b: Seq<T>, i: int) -> (j: int)
    requires
        perm(a, b),
        0 <= i < a.len(),
    ensures
        0 <= j < b.len(),
        b[j] == a[i],
{
    assert(a.contains(a[i]));
    assert(a.to_multiset().count(a[i]) > 0);
    assert(b.contains(a[i]));
    choose|j: int| 0 <= j < b.len() && b[j] == a[i]
}

/// Swapping two positions below `end` permutes `s[..end]`.
pub proof fn lemma_swap_prefix_perm<T>(s: Seq<T>, i: int, j: int, end: int)
    requires
        0 <= i < end,
        0 <= j < end,
        end <= s.len(),
    ensures
        perm(swapped(s, i, j).subrange(0, end), s.subrange(0, end)),
{
    assert(swapped(s, i, j).subrange(0, end) =~= swapped(s.subrange(0, end), i, j));
    lemma_swap_perm(s.subrange(0, end), i, j);
}

/// Restores the heap order below `root` in `s[..end]`, assuming it already
/// holds for every later node: the root value moves down, swapping with its
/// larger child, until neither child comes after it.
pub fn sift_down_by_less<T, F: Fn(&T, &T) -> bool>(slice: &mut [T], root: usize, end: usize, is_less: &F)
    requires
        callable::<T, F>(*is_less),
        end <= old(slice)@.len(),
        strict_weak_order::<T, F>(*is_less) ==> heap_from(old(slice)@, *is_less, root + 1, end as int),
    ensures
        final(slice)@.len() == old(slice)@.len(),
        perm(final(slice)@, old(slice)@),
        perm(final(slice)@.subrange(0, end as int), old(slice)@.subrange(0, end as int)),
        forall|k: int| 0 <= k < final(slice)@.len() && (k < root || k >= end) ==> #[trigger] final(slice)@[k] == old(slice)@[k],
        strict_weak_order::<T, F>(*is_less) ==> heap_from(final(slice)@, *is_less, root as int, end as int),
{
    let ghost f = *is_less;
    let ghost w = strict_weak_order::<T, F>(f);
    let ghost r0 = root as int;
    let ghost e = end as int;
    let len = slice.len();
    let mut node = root;
    let ghost mut gp: int = 0;
    loop
        invariant
            len == slice@.len(),
            len == old(slice)@.len(),
            e == end as int,
            r0 == root as int,
            end <= len,
            r0 <= node,
            f == *is_less,
            callable::<T, F>(f),
            w == strict_weak_order::<T, F>(f),
            perm(slice@, old(slice)@),
            perm(slice@.subrange(0, e), old(slice)@.subrange(0, e)),
            forall|k: int| 0 <= k < len && (k < r0 || k >= e) ==> #[trigger] slice@[k] == old(slice)@[k],
            w ==> forall|i: int| r0 <= i < e && i != node ==> #[trigger] heap_at(slice@, f, i, e),
            w && node > r0 ==> {
                &&& r0 <= gp < node
                &&& (node == 2 * gp + 1 || node == 2 * gp + 2)
                &&& (2 * node + 1 < e ==> !lt(f, slice@[gp], slice@[2 * node + 1]))
                &&& (2 * node + 2 < e ==> !lt(f, slice@[gp], slice@[2 * node + 2]))
            },
        decreases e - node,
    {
        if node >= end || end - 1 - node <= node {
            proof {
                if w {
                    if node < end {
                        assert(heap_at(slice@, f, node as int, e));
                    }
                    assert forall|i: int| r0 <= i < e implies #[trigger] heap_at(slice@, f, i, e) by {
                        if i == node {
                            assert(heap_at(slice@, f, node as int, e));
                        }
                    }
                }
            }
            return;
        }
        let left = 2 * node + 1;
        let mut child = left;
        let right = left + 1;
        if right < end && less(is_less, &slice[left], &slice[right]) {
            child = right;
        }
        proof {
            if w {
                if right < end {
                    if child == right {
                        lemma_before_asym(f, slice@[left as int], slice@[right as int]);
                    }
                }
            }
        }
        if !less(is_less, &slice[node], &slice[child]) {
            proof {
                if w {
                    if right < end {
                        let other = if child == right { left } else { right };
                        lemma_not_before_trans(f, slice@[node as int], slice@[child as int], slice@[other as int]);
                    }
                    assert(heap_at(slice@, f, node as int, e));
                    assert forall|i: int| r0 <= i < e implies #[trigger] heap_at(slice@, f, i, e) by {
                        if i == node {
                            assert(heap_at(slice@, f, node as int, e));
                        }
                    }
                }
            }
            return;
        }
        let ghost before = slice@;
        slice_swap(slice, node, child);
        proof {
            lemma_swap_perm(before, node as int, child as int);
            lemma_swap_prefix_perm(before, node as int, child as int, e);
            let s = slice@;
            let ro = node as int;
            let c = child as int;
            if w {
                lemma_before_asym(f, before[ro], before[c]);
                assert(s[ro] == before[c]);
                assert(s[c] == before[ro]);
                assert(heap_at(s, f, ro, e)) by {
                    if right < end {
                        let other = if child == right { left as int } else { right as int };
                        assert(s[other] == before[other]);
                    }
                }
                assert forall|i: int| r0 <= i < e && i != c implies #[trigger] heap_at(s, f, i, e) by {
                    if i != ro {
                        assert(heap_at(before, f, i, e));
                        if ro > r0 && i == gp {
                            assert(s[gp] == before[gp]);
                            if 2 * gp + 1 == ro {
                                assert(!lt(f, before[gp], before[ro]) || true);
                            }
                        }
                        if 2 * i + 1 < e {
                            if 2 * i + 1 == ro {
                                assert(i == gp);
                            } else {
                                assert(s[2 * i + 1] == before[2 * i + 1]);
                            }
                        }
                        if 2 * i + 2 < e {
                            if 2 * i + 2 == ro {
                                assert(i == gp);
                            } else {
                                assert(s[2 * i + 2] == before[2 * i + 2]);
                            }
                        }
                    }
                }
                assert(heap_at(before, f, c, e));
                if 2 * c + 1 < e {
                    assert(s[2 * c + 1] == before[2 * c + 1]);
                }
                if 2 * c + 2 < e {
                    assert(s[2 * c + 2] == before[2 * c + 2]);
                }
            }
            gp = node as int;
        }
        node = child;
    }
}

/// Heapsort: builds a heap over the whole slice, then repeatedly moves the
/// root behind the shrinking heap.
pub fn heapsort_by_less<T, F: Fn(&T, &T) -> bool>(slice: &mut [T], is_less: &F)
    requires
        callable::<T, F>(*is_less),
    ensures
        final(slice)@.len() == old(slice)@.len(),
        perm(final(slice)@, old(slice)@),
        strict_weak_order::<T, F>(*is_less) ==> sorted_by(final(slice)@, *is_less),
{
    let ghost f = *is_less;
    let ghost w = strict_weak_order::<T, F>(f);
    let len = slice.len();
    if len < 2 {
        proof {
            assert(sorted_by(slice@, f));
        }
        return;
    }
    let mut start = (len - 2) / 2 + 1;
    proof {
        if w {
            assert forall|i: int| start <= i < len implies #[trigger] heap_at(slice@, f, i, len as int) by {}
        }
    }
    while start > 0
        invariant
            len == slice@.len(),
            len >= 2,
            start <= (len - 2) / 2 + 1,
            f == *is_less,
            callable::<T, F>(f),
            w == strict_weak_order::<T, F>(f),
            perm(slice@, old(slice)@),
            w ==> heap_from(slice@, f, start as int, len as int),
        decreases start,
    {
        start = start - 1;
        sift_down_by_less(slice, start, len, is_less);
    }
    let mut end = len;
    while end > 1
        invariant
            len == slice@.len(),
            1 <= end <= len,
            f == *is_less,
            callable::<T, F>(f),
            w == strict_weak_order::<T, F>(f),
            perm(slice@, old(slice)@),
            w ==> heap_from(slice@, f, 0, end as int),
            w ==> sorted_by(slice@.subrange(end as int, len as int), f),
            w ==> forall|i: int, k: int| 0 <= i < end && end <= k < len ==> !lt(f, #[trigger] slice@[k], #[trigger] slice@[i]),
        decreases end,
    {
        end = end - 1;
        let ghost before = slice@;
        slice_swap(slice, 0, end);
        proof {
            lemma_swap_perm(before, 0, end as int);
            let s = slice@;
            let e = end as int;
            if w {
                assert forall|k: int| 0 <= k < e + 1 implies !lt(f, before[0], #[trigger] before[k]) by {
                    lemma_heap_root_max(before, f, e + 1, k);
                }
                assert forall|i: int| 1 <= i < e implies #[trigger] heap_at(s, f, i, e) by {
                    assert(heap_at(before, f, i, e + 1));
                    if 2 * i + 1 < e {
                        assert(s[2 * i + 1] == before[2 * i + 1]);
                    }
                    if 2 * i + 2 < e {
                        assert(s[2 * i + 2] == before[2 * i + 2]);
                    }
                }
                assert forall|i: int, k: int| 0 <= i < e && e <= k < len implies !lt(f, #[trigger] s[k], #[trigger] s[i]) by {
                    if k == e {
                        assert(s[e] == before[0]);
                        if i == 0 {
                            assert(s[0] == before[e]);
                        } else {
                            assert(s[i] == before[i]);
                        }
                    } else {
                        assert(s[k] == before[k]);
                        if i == 0 {
                            assert(s[0] == before[e]);
                        } else {
                            assert(s[i] == before[i]);
                        }
                    }
                }
                assert forall|a: int, b: int| 0 <= a < b < s.subrange(e, len as int).len() implies !lt(f, #[trigger] s.subrange(e, len as int)[b], #[trigger] s.subrange(e, len as int)[a]) by {
                    assert(s.subrange(e, len as int)[a] == s[e + a]);
                    assert(s.subrange(e, len as int)[b] == s[e + b]);
                    if a == 0 {
                        assert(s[e] == before[0]);
                        assert(s[e + b] == before[e + b]);
                    } else {
                        assert(before.subrange(e + 1, len as int)[a - 1] == before[e + a]);
                        assert(before.subrange(e + 1, len as int)[b - 1] == before[e + b]);
                        assert(s[e + a] == before[e + a]);
                        assert(s[e + b] == before[e + b]);
                    }
                }
            }
        }
        let ghost mid = slice@;
        sift_down_by_less(slice, 0, end, is_less);
        proof {
            let s = slice@;
            let e = end as int;
            if w {
                assert(s.subrange(e, len as int) =~= mid.subrange(e, len as int));
                assert forall|i: int, k: int| 0 <= i < e && e <= k < len implies !lt(f, #[trigger] s[k], #[trigger] s[i]) by {
                    let j = lemma_perm_has(s.subrange(0, e), mid.subrange(0, e), i);
                    assert(s.subrange(0, e)[i] == s[i]);
                    assert(mid.subrange(0, e)[j] == mid[j]);
                    assert(s[k] == mid[k]);
                }
            }
        }
    }
    proof {
        if w {
            let s = slice@;
            assert forall|a: int, b: int| 0 <= a < b < s.len() implies !lt(f, #[trigger] s[b], #[trigger] s[a]) by {
                if a == 0 {
                    if end == 1 {
                    }
                } else {
                    assert(s.subrange(1, len as int)[a - 1] == s[a]);
                    assert(s.subrange(1, len as int)[b - 1] == s[b]);
                }
            }
        }
    }
}

} // verus!
