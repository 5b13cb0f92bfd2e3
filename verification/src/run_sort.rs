//! Sorting one run in memory, by a merge sort that keeps the order of
//! equivalent records.
use crate::order::{callable, decides, is_less, sorted, total_preorder};
use std::cmp::Ordering;
use vstd::multiset::Multiset;
use vstd::prelude::*;
use vstd::seq_lib::lemma_multiset_commutative;

verus! {

/// The merge of `left` and `right`: the smaller head goes first, the head of
/// `left` where neither is smaller.
pub open spec fn merge<T>(left: Seq<T>, right: Seq<T>, leq: spec_fn(T, T) -> bool) -> Seq<T>
    decreases left.len() + right.len(),
{
    if left.len() == 0 {
        right
    } else if right.len() == 0 {
        left
    } else if leq(left[0], right[0]) {
        seq![left[0]] + merge(left.drop_first(), right, leq)
    } else {
        seq![right[0]] + merge(left, right.drop_first(), leq)
    }
}

/// The records of `run` in sorted order: both halves sorted, then merged.
pub open spec fn sorted_run<T>(run: Seq<T>, leq: spec_fn(T, T) -> bool) -> Seq<T>
    decreases run.len(),
{
    if run.len() <= 1 {
        run
    } else {
        let mid = run.len() as int / 2;
        merge(sorted_run(run.take(mid), leq), sorted_run(run.skip(mid), leq), leq)
    }
}

/// A merge holds the records of both sequences, each as often as they do.
pub proof fn lemma_merge_permutes<T>(left: Seq<T>, right: Seq<T>, leq: spec_fn(T, T) -> bool)
    ensures
        merge(left, right, leq).len() == left.len() + right.len(),
        merge(left, right, leq).to_multiset() == left.to_multiset().add(right.to_multiset()),
    decreases left.len() + right.len(),
{
    broadcast use vstd::seq_lib::group_to_multiset_ensures;

    if left.len() == 0 {
        assert(left.to_multiset() =~= Multiset::<T>::empty());
        assert(left.to_multiset().add(right.to_multiset()) =~= right.to_multiset());
    } else if right.len() == 0 {
        assert(right.to_multiset() =~= Multiset::<T>::empty());
        assert(left.to_multiset().add(right.to_multiset()) =~= left.to_multiset());
    } else if leq(left[0], right[0]) {
        let rest = merge(left.drop_first(), right, leq);
        lemma_merge_permutes(left.drop_first(), right, leq);
        lemma_multiset_commutative(seq![left[0]], rest);
        lemma_multiset_commutative(seq![left[0]], left.drop_first());
        assert(seq![left[0]] + left.drop_first() =~= left);
        assert(merge(left, right, leq).to_multiset() =~= left.to_multiset().add(
            right.to_multiset(),
        ));
    } else {
        let rest = merge(left, right.drop_first(), leq);
        lemma_merge_permutes(left, right.drop_first(), leq);
        lemma_multiset_commutative(seq![right[0]], rest);
        lemma_multiset_commutative(seq![right[0]], right.drop_first());
        assert(seq![right[0]] + right.drop_first() =~= right);
        assert(merge(left, right, leq).to_multiset() =~= left.to_multiset().add(
            right.to_multiset(),
        ));
    }
}

/// Every record of a merge comes from one of the two sequences.
proof fn lemma_merge_members<T>(left: Seq<T>, right: Seq<T>, leq: spec_fn(T, T) -> bool, k: int)
    requires
        0 <= k < merge(left, right, leq).len(),
    ensures
        left.contains(merge(left, right, leq)[k]) || right.contains(merge(left, right, leq)[k]),
    decreases left.len() + right.len(),
{
    if left.len() == 0 {
        assert(right[k] == merge(left, right, leq)[k]);
    } else if right.len() == 0 {
        assert(left[k] == merge(left, right, leq)[k]);
    } else if leq(left[0], right[0]) {
        if k == 0 {
            assert(left[0] == merge(left, right, leq)[k]);
        } else {
            lemma_merge_members(left.drop_first(), right, leq, k - 1);
            let x = merge(left, right, leq)[k];
            if left.drop_first().contains(x) {
                let i = choose|i: int| 0 <= i < left.drop_first().len() && left.drop_first()[i] == x;
                assert(left[i + 1] == x);
            }
        }
    } else {
        if k == 0 {
            assert(right[0] == merge(left, right, leq)[k]);
        } else {
            lemma_merge_members(left, right.drop_first(), leq, k - 1);
            let x = merge(left, right, leq)[k];
            if right.drop_first().contains(x) {
                let i = choose|i: int|
                    0 <= i < right.drop_first().len() && right.drop_first()[i] == x;
                assert(right[i + 1] == x);
            }
        }
    }
}

/// The merge of two sorted sequences is sorted.
pub proof fn lemma_merge_sorted<T>(left: Seq<T>, right: Seq<T>, leq: spec_fn(T, T) -> bool)
    requires
        total_preorder(leq),
        sorted(left, leq),
        sorted(right, leq),
    ensures
        sorted(merge(left, right, leq), leq),
    decreases left.len() + right.len(),
{
    let m = merge(left, right, leq);
    if left.len() == 0 || right.len() == 0 {
    } else {
        let first = m[0];
        let rest = if leq(left[0], right[0]) {
            merge(left.drop_first(), right, leq)
        } else {
            merge(left, right.drop_first(), leq)
        };
        if leq(left[0], right[0]) {
            lemma_merge_sorted(left.drop_first(), right, leq);
        } else {
            lemma_merge_sorted(left, right.drop_first(), leq);
        }
        assert(m =~= seq![first] + rest);
        assert forall|k: int| 0 <= k < rest.len() implies leq(first, #[trigger] rest[k]) by {
            let x = rest[k];
            if leq(left[0], right[0]) {
                lemma_merge_members(left.drop_first(), right, leq, k);
                if left.drop_first().contains(x) {
                    let i = choose|i: int|
                        0 <= i < left.drop_first().len() && left.drop_first()[i] == x;
                    assert(leq(left[0], left[i + 1]));
                } else {
                    let i = choose|i: int| 0 <= i < right.len() && right[i] == x;
                    assert(i > 0 ==> leq(right[0], right[i]));
                }
            } else {
                lemma_merge_members(left, right.drop_first(), leq, k);
                assert(leq(right[0], left[0]));
                if right.drop_first().contains(x) {
                    let i = choose|i: int|
                        0 <= i < right.drop_first().len() && right.drop_first()[i] == x;
                    assert(leq(right[0], right[i + 1]));
                } else {
                    let i = choose|i: int| 0 <= i < left.len() && left[i] == x;
                    assert(i > 0 ==> leq(left[0], left[i]));
                }
            }
        }
        assert forall|i: int, j: int| 0 <= i < j < m.len() implies #[trigger] leq(m[i], m[j]) by {
            if i == 0 {
                assert(m[j] == rest[j - 1]);
            } else {
                assert(m[i] == rest[i - 1]);
                assert(m[j] == rest[j - 1]);
            }
        }
    }
}

/// A sorted run holds the records of the run, each as often as the run does, and
/// is non-decreasing under a total preorder.
pub proof fn lemma_sorted_run<T>(run: Seq<T>, leq: spec_fn(T, T) -> bool)
    ensures
        sorted_run(run, leq).len() == run.len(),
        sorted_run(run, leq).to_multiset() == run.to_multiset(),
        total_preorder(leq) ==> sorted(sorted_run(run, leq), leq),
    decreases run.len(),
{
    if run.len() <= 1 {
    } else {
        let mid = run.len() as int / 2;
        let front = run.take(mid);
        let back = run.skip(mid);
        lemma_sorted_run(front, leq);
        lemma_sorted_run(back, leq);
        lemma_merge_permutes(sorted_run(front, leq), sorted_run(back, leq), leq);
        lemma_multiset_commutative(front, back);
        assert(front + back =~= run);
        if total_preorder(leq) {
            lemma_merge_sorted(sorted_run(front, leq), sorted_run(back, leq), leq);
        }
    }
}

/// The records of `s` that `leq` holds equivalent to `x`, in their order.
pub open spec fn alike<T>(s: Seq<T>, leq: spec_fn(T, T) -> bool, x: T) -> Seq<T> {
    s.filter(|y: T| leq(x, y) && leq(y, x))
}

/// Where no record of `s` is equivalent to `x`, none is alike.
proof fn lemma_none_alike<T>(s: Seq<T>, leq: spec_fn(T, T) -> bool, x: T)
    requires
        forall|k: int| 0 <= k < s.len() ==> !(leq(x, #[trigger] s[k]) && leq(s[k], x)),
    ensures
        alike(s, leq, x) == Seq::<T>::empty(),
    decreases s.len(),
{
    reveal(Seq::filter);
    if s.len() > 0 {
        assert forall|k: int| 0 <= k < s.drop_last().len() implies !(leq(
            x,
            #[trigger] s.drop_last()[k],
        ) && leq(s.drop_last()[k], x)) by {
            assert(s.drop_last()[k] == s[k]);
        }
        lemma_none_alike(s.drop_last(), leq, x);
        assert(!(leq(x, s[s.len() - 1]) && leq(s[s.len() - 1], x)));
    }
}

/// A merge of two sorted sequences keeps the order of equivalent records: those
/// of `left` come first, then those of `right`, each in their order.
pub proof fn lemma_merge_is_stable<T>(
    left: Seq<T>,
    right: Seq<T>,
    leq: spec_fn(T, T) -> bool,
    x: T,
)
    requires
        total_preorder(leq),
        sorted(left, leq),
        sorted(right, leq),
    ensures
        alike(merge(left, right, leq), leq, x) == alike(left, leq, x) + alike(right, leq, x),
    decreases left.len() + right.len(),
{
    let same = |y: T| leq(x, y) && leq(y, x);
    if left.len() == 0 {
        lemma_none_alike(left, leq, x);
        assert(alike(left, leq, x) + alike(right, leq, x) =~= alike(right, leq, x));
    } else if right.len() == 0 {
        lemma_none_alike(right, leq, x);
        assert(alike(left, leq, x) + alike(right, leq, x) =~= alike(left, leq, x));
    } else if leq(left[0], right[0]) {
        let rest = merge(left.drop_first(), right, leq);
        lemma_merge_is_stable(left.drop_first(), right, leq, x);
        Seq::filter_distributes_over_add(seq![left[0]], rest, same);
        Seq::filter_distributes_over_add(seq![left[0]], left.drop_first(), same);
        assert(seq![left[0]] + left.drop_first() =~= left);
        assert(alike(merge(left, right, leq), leq, x) =~= alike(left, leq, x) + alike(
            right,
            leq,
            x,
        ));
    } else {
        let rest = merge(left, right.drop_first(), leq);
        lemma_merge_is_stable(left, right.drop_first(), leq, x);
        Seq::filter_distributes_over_add(seq![right[0]], rest, same);
        Seq::filter_distributes_over_add(seq![right[0]], right.drop_first(), same);
        assert(seq![right[0]] + right.drop_first() =~= right);
        if leq(x, right[0]) && leq(right[0], x) {
            assert forall|k: int| 0 <= k < left.len() implies !(leq(x, #[trigger] left[k])
                && leq(left[k], x)) by {
                if leq(left[k], x) {
                    assert(k > 0 ==> leq(left[0], left[k]));
                    assert(leq(left[0], left[0]) || leq(left[0], left[0]));
                    assert(leq(left[0], x));
                    assert(leq(left[0], right[0]));
                }
            }
            lemma_none_alike(left, leq, x);
            assert(alike(merge(left, right, leq), leq, x) =~= alike(left, leq, x) + alike(
                right,
                leq,
                x,
            ));
        } else {
            lemma_none_alike(seq![right[0]], leq, x);
            assert(alike(merge(left, right, leq), leq, x) =~= alike(left, leq, x) + alike(
                right,
                leq,
                x,
            ));
        }
    }
}

/// Sorting a run keeps the order of equivalent records: under a total preorder
/// the records of the sorted run that are equivalent to `x` are those of the
/// run, in the order in which they came.
pub proof fn lemma_sorted_run_is_stable<T>(run: Seq<T>, leq: spec_fn(T, T) -> bool, x: T)
    requires
        total_preorder(leq),
    ensures
        alike(sorted_run(run, leq), leq, x) == alike(run, leq, x),
    decreases run.len(),
{
    if run.len() > 1 {
        let mid = run.len() as int / 2;
        let front = run.take(mid);
        let back = run.skip(mid);
        lemma_sorted_run_is_stable(front, leq, x);
        lemma_sorted_run_is_stable(back, leq, x);
        lemma_sorted_run(front, leq);
        lemma_sorted_run(back, leq);
        lemma_merge_is_stable(sorted_run(front, leq), sorted_run(back, leq), leq, x);
        Seq::filter_distributes_over_add(front, back, |y: T| leq(x, y) && leq(y, x));
        assert(front + back =~= run);
    }
}

/// Dropping the last record of a sequence drops the first of its reverse.
proof fn lemma_reverse_drop_last<T>(s: Seq<T>)
    requires
        s.len() > 0,
    ensures
        s.reverse().len() == s.len(),
        s.reverse()[0] == s.last(),
        s.drop_last().reverse() == s.reverse().drop_first(),
{
    assert(s.drop_last().reverse() =~= s.reverse().drop_first());
}

/// What an output and two runs held last record first hold together.
proof fn lemma_held_apart<T>(out: Seq<T>, l: Seq<T>, r: Seq<T>)
    ensures
        (out + l.reverse() + r.reverse()).to_multiset() == out.to_multiset().add(
            l.to_multiset(),
        ).add(r.to_multiset()),
{
    lemma_multiset_commutative(out + l.reverse(), r.reverse());
    lemma_multiset_commutative(out, l.reverse());
    l.lemma_reverse_to_multiset();
    r.lemma_reverse_to_multiset();
}

/// Moving the last record of `from` to the end of `out` keeps what these and a
/// third sequence hold together.
proof fn lemma_moved_over<T>(out: Seq<T>, from: Seq<T>, other: Seq<T>)
    requires
        from.len() > 0,
    ensures
        out.push(from.last()).to_multiset().add(from.drop_last().to_multiset()).add(
            other.to_multiset(),
        ) == out.to_multiset().add(from.to_multiset()).add(other.to_multiset()),
        out.push(from.last()).to_multiset().add(other.to_multiset()).add(
            from.drop_last().to_multiset(),
        ) == out.to_multiset().add(other.to_multiset()).add(from.to_multiset()),
{
    broadcast use vstd::multiset::group_multiset_axioms;

    out.to_multiset_ensures();
    from.drop_last().to_multiset_ensures();
    assert(from.drop_last().push(from.last()) =~= from);
    assert(out.push(from.last()).to_multiset().add(from.drop_last().to_multiset()).add(
        other.to_multiset(),
    ) =~= out.to_multiset().add(from.to_multiset()).add(other.to_multiset()));
    assert(out.push(from.last()).to_multiset().add(other.to_multiset()).add(
        from.drop_last().to_multiset(),
    ) =~= out.to_multiset().add(other.to_multiset()).add(from.to_multiset()));
}

/// The records of `v` in the opposite order.
fn reversed<T>(v: Vec<T>) -> (out: Vec<T>)
    ensures
        out@ == v@.reverse(),
{
    let ghost all = v@;
    let mut v = v;
    let mut out: Vec<T> = Vec::new();
    while v.len() > 0
        invariant
            v@.len() + out@.len() == all.len(),
            v@ == all.take(v@.len() as int),
            forall|i: int| 0 <= i < out@.len() ==> out@[i] == all[all.len() - 1 - i],
        decreases v.len(),
    {
        let x = v.pop().unwrap();
        out.push(x);
    }
    assert(out@ =~= all.reverse());
    out
}

/// Moves what is left of `from`, which is held last record first, to the end of
/// `out`.
fn drain_reversed<T>(from: Vec<T>, out: &mut Vec<T>)
    ensures
        final(out)@ == old(out)@ + from@.reverse(),
{
    let mut rest = reversed(from);
    out.append(&mut rest);
}

/// Merges two runs into one.
fn merge_sorted<T, F: Fn(&T, &T) -> Ordering>(left: Vec<T>, right: Vec<T>, f: &F) -> (out: Vec<T>)
    requires
        callable(*f),
    ensures
        forall|leq: spec_fn(T, T) -> bool| #[trigger]
            decides(*f, leq) ==> out@ == merge(left@, right@, leq),
        out@.to_multiset() == left@.to_multiset().add(right@.to_multiset()),
{
    let ghost left0 = left@;
    let ghost right0 = right@;
    // Both runs are held last record first, so that `pop` takes their heads.
    let mut l = reversed(left);
    let mut r = reversed(right);
    let mut out: Vec<T> = Vec::new();
    proof {
        assert(l@.reverse() =~= left0);
        assert(r@.reverse() =~= right0);
        left0.lemma_reverse_to_multiset();
        right0.lemma_reverse_to_multiset();
        out@.to_multiset_ensures();
        assert(out@.to_multiset().add(l@.to_multiset()).add(r@.to_multiset())
            =~= left0.to_multiset().add(right0.to_multiset()));
        assert forall|leq: spec_fn(T, T) -> bool| #[trigger] decides(*f, leq) implies out@ + merge(
            l@.reverse(),
            r@.reverse(),
            leq,
        ) == merge(left0, right0, leq) by {
            assert(out@ + merge(left0, right0, leq) =~= merge(left0, right0, leq));
        }
    }
    while l.len() > 0 && r.len() > 0
        invariant
            callable(*f),
            forall|leq: spec_fn(T, T) -> bool| #[trigger]
                decides(*f, leq) ==> out@ + merge(l@.reverse(), r@.reverse(), leq) == merge(
                    left0,
                    right0,
                    leq,
                ),
            out@.to_multiset().add(l@.to_multiset()).add(r@.to_multiset())
                == left0.to_multiset().add(right0.to_multiset()),
        decreases l.len() + r.len(),
    {
        let ghost l1 = l@;
        let ghost r1 = r@;
        let ghost out1 = out@;
        proof {
            lemma_reverse_drop_last(l1);
            lemma_reverse_drop_last(r1);
        }
        let right_first = is_less(f, &r[r.len() - 1], &l[l.len() - 1]);
        if right_first {
            let x = r.pop().unwrap();
            out.push(x);
        } else {
            let x = l.pop().unwrap();
            out.push(x);
        }
        proof {
            assert(l1.drop_last() =~= l1.subrange(0, l1.len() - 1));
            assert(r1.drop_last() =~= r1.subrange(0, r1.len() - 1));
            if right_first {
                lemma_moved_over(out1, r1, l1);
                assert(out@ == out1.push(r1.last()));
                assert(r@ == r1.drop_last());
            } else {
                lemma_moved_over(out1, l1, r1);
                assert(out@ == out1.push(l1.last()));
                assert(l@ == l1.drop_last());
            }
            assert forall|leq: spec_fn(T, T) -> bool| #[trigger] decides(*f, leq) implies out@
                + merge(l@.reverse(), r@.reverse(), leq) == merge(left0, right0, leq) by {
                let lh = l1.reverse();
                let rh = r1.reverse();
                assert(right_first == !leq(lh[0], rh[0]));
                if right_first {
                    assert(merge(lh, rh, leq) == seq![rh[0]] + merge(lh, rh.drop_first(), leq));
                    assert(out@ + merge(l@.reverse(), r@.reverse(), leq) =~= out1 + merge(
                        lh,
                        rh,
                        leq,
                    ));
                } else {
                    assert(merge(lh, rh, leq) == seq![lh[0]] + merge(lh.drop_first(), rh, leq));
                    assert(out@ + merge(l@.reverse(), r@.reverse(), leq) =~= out1 + merge(
                        lh,
                        rh,
                        leq,
                    ));
                }
            }
        }
    }
    let ghost l2 = l@;
    let ghost r2 = r@;
    let ghost out2 = out@;
    drain_reversed(l, &mut out);
    drain_reversed(r, &mut out);
    proof {
        assert(out@ =~= out2 + l2.reverse() + r2.reverse());
        lemma_held_apart(out2, l2, r2);
        assert forall|leq: spec_fn(T, T) -> bool| #[trigger] decides(*f, leq) implies out@
            == merge(left0, right0, leq) by {
            assert(l2.len() == 0 || r2.len() == 0);
            assert(merge(l2.reverse(), r2.reverse(), leq) =~= l2.reverse() + r2.reverse());
            assert(out@ =~= out2 + merge(l2.reverse(), r2.reverse(), leq));
        }
    }
    out
}

/// Sorts the records of one run by merge sort, in which records that the order
/// holds equivalent keep the order in which they came. Whatever the comparator
/// answers, the run keeps its records.
pub fn sort_run<T, F: Fn(&T, &T) -> Ordering>(run: Vec<T>, f: &F) -> (out: Vec<T>)
    requires
        callable(*f),
    ensures
        forall|leq: spec_fn(T, T) -> bool| #[trigger]
            decides(*f, leq) ==> out@ == sorted_run(run@, leq),
        out@.to_multiset() == run@.to_multiset(),
    decreases run@.len(),
{
    let n = run.len();
    if n <= 1 {
        return run;
    }
    let ghost all = run@;
    let mut front = run;
    let back = front.split_off(n / 2);
    proof {
        lemma_multiset_commutative(front@, back@);
        assert(front@ + back@ =~= all);
    }
    let front_sorted = sort_run(front, f);
    let back_sorted = sort_run(back, f);
    merge_sorted(front_sorted, back_sorted, f)
}

} // verus!
