use vstd::prelude::*;
use std::cmp::Ordering;
use crate::sort::{lt, callable, strict_weak_order, sorted_by, perm};

verus! {

/// Three-way comparison derived from a "comes before" predicate: `Less` when
/// `left` comes before `right`, `Greater` when `right` comes before `left`,
/// `Equal` otherwise.
pub fn ordering_from_is_less<T, F: Fn(&T, &T) -> bool>(is_less: &F, left: &T, right: &T) -> (r: Ordering)
    requires
        callable::<T, F>(*is_less),
    ensures
        strict_weak_order::<T, F>(*is_less) ==> {
            &&& (r == Ordering::Less) == lt(*is_less, *left, *right)
            &&& (r == Ordering::Greater) == (!lt(*is_less, *left, *right) && lt(*is_less, *right, *left))
            &&& (r == Ordering::Equal) == (!lt(*is_less, *left, *right) && !lt(*is_less, *right, *left))
        },
{
    if crate::sort::less(is_less, left, right) {
        Ordering::Less
    } else if crate::sort::less(is_less, right, left) {
        Ordering::Greater
    } else {
        Ordering::Equal
    }
}

/// Neither element comes before the other.
pub fn is_equal_by_less<T, F: Fn(&T, &T) -> bool>(left: &T, right: &T, is_less: &F) -> (r: bool)
    requires
        callable::<T, F>(*is_less),
    ensures
        strict_weak_order::<T, F>(*is_less) ==> r == (!lt(*is_less, *left, *right) && !lt(*is_less, *right, *left)),
{
    !crate::sort::less(is_less, left, right) && !crate::sort::less(is_less, right, left)
}

/// Sorts with `<[T]>::sort_unstable_by`, comparing through
/// `ordering_from_is_less`.  Trusted: std documents that the result is
/// sorted (no element compares `Greater` than a later one) when the
/// comparison is a total order, which a strict weak order induces; the
/// elements are only rearranged.
#[verifier::external_body]
pub(crate) fn sort_unstable_by_less<T, F: Fn(&T, &T) -> bool>(slice: &mut [T], is_less: &F)
    requires
        callable::<T, F>(*is_less),
        strict_weak_order::<T, F>(*is_less),
    ensures
        final(slice)@.len() == old(slice)@.len(),
        perm(final(slice)@, old(slice)@),
        sorted_by(final(slice)@, *is_less),
{
    slice.sort_unstable_by(|left, right| ordering_from_is_less(is_less, left, right));
}

/// Sorts a slice: insertion sort below the small-slice threshold, the
/// standard unstable sort otherwise.
pub fn sort_slice_by_less<T, F: Fn(&T, &T) -> bool>(slice: &mut [T], is_less: &F)
    requires
        callable::<T, F>(*is_less),
        strict_weak_order::<T, F>(*is_less),
    ensures
        final(slice)@.len() == old(slice)@.len(),
        perm(final(slice)@, old(slice)@),
        sorted_by(final(slice)@, *is_less),
{
    if slice.len() < crate::sort::SORT_INSERTION_SORT_THRESHOLD {
        crate::sort::insertion_sort_by_less(slice, is_less);
    } else {
        sort_unstable_by_less(slice, is_less);
    }
}

} // verus!
