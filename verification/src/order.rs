//! The order that a caller's comparator stands for.
use std::cmp::Ordering;
use vstd::prelude::*;

verus! {

/// What a three-way comparison of `a` with `b` reports when it follows `leq`.
pub open spec fn three_way<T>(leq: spec_fn(T, T) -> bool, a: T, b: T) -> Ordering {
    if !leq(b, a) {
        Ordering::Less
    } else if !leq(a, b) {
        Ordering::Greater
    } else {
        Ordering::Equal
    }
}

/// Every answer of the comparator `f` is the three-way comparison under `leq`.
pub open spec fn decides<T, F: Fn(&T, &T) -> Ordering>(f: F, leq: spec_fn(T, T) -> bool) -> bool {
    forall|a: T, b: T, o: Ordering| #[trigger]
        call_ensures(f, (&a, &b), o) ==> o == three_way(leq, a, b)
}

/// The comparator `f` accepts every pair of records.
pub open spec fn callable<T, F: Fn(&T, &T) -> Ordering>(f: F) -> bool {
    forall|a: T, b: T| #[trigger] call_requires(f, (&a, &b))
}

/// `leq` compares any two records and is transitive. Distinct records may be
/// equivalent under it.
pub open spec fn total_preorder<T>(leq: spec_fn(T, T) -> bool) -> bool {
    &&& forall|a: T, b: T| #[trigger] leq(a, b) || leq(b, a)
    &&& forall|a: T, b: T, c: T| #[trigger] leq(a, b) && #[trigger] leq(b, c) ==> leq(a, c)
}

/// `s` is non-decreasing under `leq`.
pub open spec fn sorted<T>(s: Seq<T>, leq: spec_fn(T, T) -> bool) -> bool {
    forall|i: int, j: int| 0 <= i < j < s.len() ==> #[trigger] leq(s[i], s[j])
}

/// Whether the comparator puts `a` strictly before `b`.
pub fn is_less<T, F: Fn(&T, &T) -> Ordering>(f: &F, a: &T, b: &T) -> (less: bool)
    requires
        callable(*f),
    ensures
        forall|leq: spec_fn(T, T) -> bool| #[trigger] decides(*f, leq) ==> less == !leq(*b, *a),
{
    match f(a, b) {
        Ordering::Less => true,
        Ordering::Equal => false,
        Ordering::Greater => false,
    }
}

} // verus!
