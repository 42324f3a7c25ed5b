use std::cmp::Ordering;
use vstd::prelude::*;

verus! {

/// Overwrites `dst` with `src` when `fn_better(&src, dst)` holds, and says whether it did.
pub fn assign_better<T>(dst: &mut T, src: T, fn_better: impl FnOnce(&T, &T) -> bool) -> (r: bool)
    requires
        fn_better.requires((&src, &*old(dst))),
    ensures
        fn_better.ensures((&src, &*old(dst)), r),
        r ==> *final(dst) == src,
        !r ==> *final(dst) == *old(dst),
{
    if fn_better(&src, &*dst) {
        *dst = src;
        true
    } else {
        false
    }
}

/// Overwrites `dst` with `src` when they differ.
pub fn assign_other(dst: &mut isize, src: isize) -> (r: bool)
    ensures
        r == (src != *old(dst)),
        *final(dst) == src,
{
    assign_better(dst, src, |lhs: &isize, rhs: &isize| -> (b: bool)
        ensures
            b == (*lhs != *rhs),
        { *lhs != *rhs })
}

/// Lowers `dst` to `src` when `src` is smaller.
pub fn assign_min(dst: &mut isize, src: isize) -> (r: bool)
    ensures
        r == (src < *old(dst)),
        *final(dst) == if src < *old(dst) { src } else { *old(dst) },
{
    assign_better(dst, src, |lhs: &isize, rhs: &isize| -> (b: bool)
        ensures
            b == (*lhs < *rhs),
        { *lhs < *rhs })
}

/// Raises `dst` to `src` when `src` is larger.
pub fn assign_max(dst: &mut isize, src: isize) -> (r: bool)
    ensures
        r == (src > *old(dst)),
        *final(dst) == if src > *old(dst) { src } else { *old(dst) },
{
    assign_better(dst, src, |lhs: &isize, rhs: &isize| -> (b: bool)
        ensures
            b == (*lhs > *rhs),
        { *lhs > *rhs })
}

/// How `a` compares with `b`.
pub open spec fn spec_ordering(a: isize, b: isize) -> Ordering {
    if a < b {
        Ordering::Less
    } else if a == b {
        Ordering::Equal
    } else {
        Ordering::Greater
    }
}

fn ordering_of(a: isize, b: isize) -> (r: Ordering)
    ensures
        r == spec_ordering(a, b),
{
    if a < b {
        Ordering::Less
    } else if a == b {
        Ordering::Equal
    } else {
        Ordering::Greater
    }
}

fn same_ordering(o1: Ordering, o2: Ordering) -> (r: bool)
    ensures
        r == (o1 == o2),
{
    match (o1, o2) {
        (Ordering::Less, Ordering::Less) => true,
        (Ordering::Equal, Ordering::Equal) => true,
        (Ordering::Greater, Ordering::Greater) => true,
        _ => false,
    }
}

/// Overwrites `dst` with `src` when the key of `src` compares with the key of
/// `dst` as `ordering` says.
pub fn assign_by_key_ordering<T, FnKey: Fn(&T) -> isize>(
    dst: &mut T,
    src: T,
    fn_key: FnKey,
    ordering: Ordering,
) -> (r: bool)
    requires
        forall|t: T| fn_key.requires((&t,)),
    ensures
        exists|k_src: isize, k_dst: isize|
            fn_key.ensures((&src,), k_src) && fn_key.ensures((&*old(dst),), k_dst) && r == (ordering
                == spec_ordering(k_src, k_dst)),
        r ==> *final(dst) == src,
        !r ==> *final(dst) == *old(dst),
{
    let k_src = fn_key(&src);
    let k_dst = fn_key(&*dst);
    let b = same_ordering(ordering, ordering_of(k_src, k_dst));
    assert(fn_key.ensures((&src,), k_src) && fn_key.ensures((&*old(dst),), k_dst) && b == (ordering
        == spec_ordering(k_src, k_dst)));
    if b {
        *dst = src;
        true
    } else {
        false
    }
}

} // verus!
