//! What a sort produces, as a mathematical value, and why that is the input in
//! sorted order.
use crate::merge::{all_empty, select, select_upto};
use crate::order::{sorted, total_preorder};
use crate::sorter::BuilderState;
use crate::run_sort::{lemma_sorted_run, sorted_run};
use crate::sortable::{lemma_total_size_is_no_debt, lemma_total_size_without_first, total_size};
use vstd::multiset::Multiset;
use vstd::prelude::*;
use vstd::seq_lib::lemma_multiset_commutative;

verus! {

/// The records that the runs hold, each as often as the runs hold it.
pub open spec fn held<T>(runs: Seq<Seq<T>>) -> Multiset<T>
    decreases runs.len(),
{
    if runs.len() == 0 {
        Multiset::empty()
    } else {
        held(runs.drop_last()).add(runs.last().to_multiset())
    }
}

/// The runs after the head of run `run` was taken.
pub open spec fn without_head<T>(runs: Seq<Seq<T>>, run: int) -> Seq<Seq<T>> {
    runs.update(run, runs[run].drop_first())
}

/// The choice among the first `upto` runs is a run, and one with a head where
/// any of them has one.
pub proof fn lemma_select_in_range<T>(runs: Seq<Seq<T>>, leq: spec_fn(T, T) -> bool, upto: int)
    requires
        0 <= upto <= runs.len(),
        runs.len() > 0,
    ensures
        0 <= select_upto(runs, leq, upto) < runs.len(),
        upto > 0 ==> select_upto(runs, leq, upto) < upto,
        forall|k: int|
            0 <= k < upto && #[trigger] runs[k].len() > 0 ==> runs[select_upto(
                runs,
                leq,
                upto,
            )].len() > 0,
    decreases upto,
{
    if upto > 0 {
        lemma_select_in_range(runs, leq, upto - 1);
    }
}

/// Under a total preorder the head of the chosen run is a least head, and it is
/// strictly smaller than the head of every run before it.
pub proof fn lemma_select_least<T>(runs: Seq<Seq<T>>, leq: spec_fn(T, T) -> bool, upto: int)
    requires
        total_preorder(leq),
        0 <= upto <= runs.len(),
        runs.len() > 0,
    ensures
        forall|k: int|
            0 <= k < upto && #[trigger] runs[k].len() > 0 ==> leq(
                runs[select_upto(runs, leq, upto)][0],
                runs[k][0],
            ),
        forall|k: int|
            0 <= k < select_upto(runs, leq, upto) && k < upto && #[trigger] runs[k].len() > 0
                ==> !leq(runs[k][0], runs[select_upto(runs, leq, upto)][0]),
    decreases upto,
{
    if upto > 0 {
        lemma_select_least(runs, leq, upto - 1);
        lemma_select_in_range(runs, leq, upto - 1);
        lemma_select_in_range(runs, leq, upto);
        let before = select_upto(runs, leq, upto - 1);
        let chosen = select_upto(runs, leq, upto);
        let run = upto - 1;
        assert forall|k: int| 0 <= k < upto && #[trigger] runs[k].len() > 0 implies leq(
            runs[chosen][0],
            runs[k][0],
        ) by {
            if chosen == run && before != run {
                if k < run {
                    assert(runs[before].len() > 0);
                    assert(leq(runs[run][0], runs[before][0]) || leq(
                        runs[before][0],
                        runs[run][0],
                    ));
                    assert(leq(runs[before][0], runs[k][0]));
                } else {
                    assert(leq(runs[run][0], runs[run][0]) || leq(runs[run][0], runs[run][0]));
                }
            } else {
                if k == run {
                    assert(leq(runs[run][0], runs[run][0]) || leq(runs[run][0], runs[run][0]));
                }
            }
        }
        assert forall|k: int|
            0 <= k < chosen && k < upto && #[trigger] runs[k].len() > 0 implies !leq(
            runs[k][0],
            runs[chosen][0],
        ) by {
            if chosen == run && before != run {
                assert(runs[before].len() > 0);
                assert(leq(runs[before][0], runs[k][0]));
                if leq(runs[k][0], runs[run][0]) {
                    assert(leq(runs[before][0], runs[run][0]));
                }
            }
        }
    }
}

/// Taking the head of a run takes one record from what the runs hold.
pub proof fn lemma_held_without_head<T>(runs: Seq<Seq<T>>, run: int)
    requires
        0 <= run < runs.len(),
        runs[run].len() > 0,
    ensures
        held(runs) == held(without_head(runs, run)).insert(runs[run][0]),
        held(runs).len() == held(without_head(runs, run)).len() + 1,
    decreases runs.len(),
{
    broadcast use vstd::multiset::group_multiset_axioms;

    let after = without_head(runs, run);
    if run == runs.len() - 1 {
        assert(after.drop_last() =~= runs.drop_last());
        let s = runs[run];
        lemma_multiset_commutative(seq![s[0]], s.drop_first());
        assert(seq![s[0]] + s.drop_first() =~= s);
        s.to_multiset_ensures();
        assert(seq![s[0]] =~= Seq::<T>::empty().push(s[0]));
        Seq::<T>::empty().to_multiset_ensures();
        assert(Seq::<T>::empty().to_multiset() =~= Multiset::<T>::empty());
        assert(seq![s[0]].to_multiset() =~= Multiset::<T>::empty().insert(s[0]));
        assert(s.to_multiset() =~= s.drop_first().to_multiset().insert(s[0]));
        assert(held(runs) =~= held(after).insert(s[0]));
    } else {
        lemma_held_without_head(runs.drop_last(), run);
        assert(after.drop_last() =~= without_head(runs.drop_last(), run));
        assert(after.last() == runs.last());
        assert(held(runs) =~= held(after).insert(runs[run][0]));
    }
}

/// A record that the runs hold stands in one of them.
pub proof fn lemma_held_member<T>(runs: Seq<Seq<T>>, x: T)
    requires
        held(runs).count(x) > 0,
    ensures
        exists|run: int, at: int|
            0 <= run < runs.len() && 0 <= at < runs[run].len() && #[trigger] runs[run][at] == x,
    decreases runs.len(),
{
    broadcast use vstd::multiset::group_multiset_axioms;

    if runs.len() == 0 {
    } else {
        let last = runs.len() - 1;
        if runs.last().to_multiset().count(x) > 0 {
            runs.last().to_multiset_ensures();
            assert(runs.last().contains(x));
            let at = choose|at: int| 0 <= at < runs.last().len() && runs.last()[at] == x;
            assert(runs[last][at] == x);
        } else {
            lemma_held_member(runs.drop_last(), x);
            let (run, at) = choose|run: int, at: int|
                0 <= run < runs.drop_last().len() && 0 <= at < runs.drop_last()[run].len()
                    && #[trigger] runs.drop_last()[run][at] == x;
            assert(runs[run][at] == x);
        }
    }
}

/// Runs that hold nothing have no record in any of them, and the other way
/// round.
pub proof fn lemma_held_nothing<T>(runs: Seq<Seq<T>>)
    ensures
        all_empty(runs) <==> held(runs).len() == 0,
    decreases runs.len(),
{
    broadcast use vstd::multiset::group_multiset_axioms;

    if runs.len() > 0 {
        lemma_held_nothing(runs.drop_last());
        runs.last().to_multiset_ensures();
        if all_empty(runs) {
            assert(runs[runs.len() - 1].len() == 0);
            assert forall|run: int| 0 <= run < runs.drop_last().len() implies (
            #[trigger] runs.drop_last()[run]).len() == 0 by {
                assert(runs[run].len() == 0);
            }
        }
        if held(runs).len() == 0 {
            assert forall|run: int| 0 <= run < runs.len() implies (#[trigger] runs[run]).len()
                == 0 by {
                if run < runs.len() - 1 {
                    assert(runs.drop_last()[run].len() == 0);
                }
            }
        }
    }
}

/// The merge of the runs: the head of the chosen run, then the merge of what is
/// left, until no run holds a record.
pub open spec fn merged<T>(runs: Seq<Seq<T>>, leq: spec_fn(T, T) -> bool) -> Seq<T>
    decreases held(runs).len(),
{
    if all_empty(runs) {
        Seq::empty()
    } else {
        let run = select(runs, leq);
        proof {
            lemma_select_in_range(runs, leq, runs.len() as int);
            lemma_held_without_head(runs, run);
        }
        seq![runs[run][0]] + merged(without_head(runs, run), leq)
    }
}

/// The merge holds the records of the runs, each as often as the runs hold it.
pub proof fn lemma_merged_permutes<T>(runs: Seq<Seq<T>>, leq: spec_fn(T, T) -> bool)
    ensures
        merged(runs, leq).to_multiset() == held(runs),
        merged(runs, leq).len() == held(runs).len(),
    decreases held(runs).len(),
{
    broadcast use vstd::multiset::group_multiset_axioms;

    lemma_held_nothing(runs);
    if all_empty(runs) {
        Seq::<T>::empty().to_multiset_ensures();
        assert(merged(runs, leq).to_multiset() =~= held(runs));
    } else {
        let run = select(runs, leq);
        lemma_select_in_range(runs, leq, runs.len() as int);
        lemma_held_without_head(runs, run);
        let rest = merged(without_head(runs, run), leq);
        lemma_merged_permutes(without_head(runs, run), leq);
        lemma_multiset_commutative(seq![runs[run][0]], rest);
        Seq::<T>::empty().to_multiset_ensures();
        assert(seq![runs[run][0]] =~= Seq::<T>::empty().push(runs[run][0]));
        assert(merged(runs, leq).to_multiset() =~= held(runs));
        merged(runs, leq).to_multiset_ensures();
    }
}

/// Every run is non-decreasing.
pub open spec fn all_sorted<T>(runs: Seq<Seq<T>>, leq: spec_fn(T, T) -> bool) -> bool {
    forall|run: int| 0 <= run < runs.len() ==> sorted(#[trigger] runs[run], leq)
}

/// The merge of sorted runs is sorted.
pub proof fn lemma_merged_sorted<T>(runs: Seq<Seq<T>>, leq: spec_fn(T, T) -> bool)
    requires
        total_preorder(leq),
        all_sorted(runs, leq),
    ensures
        sorted(merged(runs, leq), leq),
    decreases held(runs).len(),
{
    if all_empty(runs) {
    } else {
        let run = select(runs, leq);
        lemma_select_in_range(runs, leq, runs.len() as int);
        lemma_select_least(runs, leq, runs.len() as int);
        lemma_held_without_head(runs, run);
        let after = without_head(runs, run);
        let first = runs[run][0];
        let rest = merged(after, leq);
        assert forall|k: int| 0 <= k < after.len() implies sorted(#[trigger] after[k], leq) by {
            assert(sorted(runs[k], leq));
            if k == run {
                assert forall|i: int, j: int| 0 <= i < j < after[k].len() implies #[trigger] leq(
                    after[k][i],
                    after[k][j],
                ) by {
                    assert(leq(runs[k][i + 1], runs[k][j + 1]));
                }
            }
        }
        lemma_merged_sorted(after, leq);
        lemma_merged_permutes(after, leq);
        assert forall|k: int| 0 <= k < rest.len() implies leq(first, #[trigger] rest[k]) by {
            let x = rest[k];
            rest.to_multiset_ensures();
            assert(rest.contains(x));
            lemma_held_member(after, x);
            let (from, at) = choose|from: int, at: int|
                0 <= from < after.len() && 0 <= at < after[from].len()
                    && #[trigger] after[from][at] == x;
            assert(sorted(runs[from], leq));
            assert(leq(first, runs[from][0]));
            if from == run {
                assert(x == runs[run][at + 1]);
                assert(leq(runs[run][0], runs[run][at + 1]));
            } else {
                assert(x == runs[from][at]);
                if at > 0 {
                    assert(leq(runs[from][0], runs[from][at]));
                }
            }
        }
        let m = merged(runs, leq);
        assert(m =~= seq![first] + rest);
        assert forall|i: int, j: int| 0 <= i < j < m.len() implies #[trigger] leq(m[i], m[j]) by {
            if i == 0 {
                assert(m[j] == rest[j - 1]);
            } else {
                assert(m[i] == rest[i - 1]);
                assert(m[j] == rest[j - 1]);
            }
        }
    }
}

/// Runs in front of others hold what both hold.
proof fn lemma_held_prepend<T>(first: Seq<T>, rest: Seq<Seq<T>>)
    ensures
        held(seq![first] + rest) == first.to_multiset().add(held(rest)),
    decreases rest.len(),
{
    broadcast use vstd::multiset::group_multiset_axioms;

    let all = seq![first] + rest;
    if rest.len() == 0 {
        assert(all.drop_last() =~= Seq::<Seq<T>>::empty());
        assert(held(all.drop_last()) =~= Multiset::<T>::empty());
        assert(all.last() == first);
        assert(held(rest) =~= Multiset::<T>::empty());
        assert(held(all) =~= first.to_multiset().add(held(rest)));
    } else {
        lemma_held_prepend(first, rest.drop_last());
        assert(all.drop_last() =~= seq![first] + rest.drop_last());
        assert(all.last() == rest.last());
        assert(held(all) =~= first.to_multiset().add(held(rest)));
    }
}

/// The runs that a builder in `state` hands out for the records `input`, the
/// last run included.
pub open spec fn runs_of<T>(
    state: BuilderState<T>,
    input: Seq<T>,
    size: spec_fn(T) -> u64,
    leq: spec_fn(T, T) -> bool,
) -> Seq<Seq<T>>
    decreases input.len(),
{
    if input.len() == 0 {
        match state.last_run(leq) {
            Some(run) => seq![run],
            None => Seq::empty(),
        }
    } else {
        let (next, cut) = state.accepted(input[0], size(input[0]), leq);
        let rest = runs_of(next, input.drop_first(), size, leq);
        match cut {
            Some(run) => seq![run] + rest,
            None => rest,
        }
    }
}

/// What a sort of `input` under `budget` produces, where `size` gives the size
/// of a record and `leq` is the order of the comparator.
pub open spec fn sorted_output<T>(
    input: Seq<T>,
    budget: u64,
    size: spec_fn(T) -> u64,
    leq: spec_fn(T, T) -> bool,
) -> Seq<T> {
    merged(runs_of(BuilderState::initial(budget), input, size, leq), leq)
}

/// The runs hold the pending records and the input, each record as often as
/// these do; no run is empty; and under a total preorder every run is sorted.
pub proof fn lemma_runs_of<T>(
    state: BuilderState<T>,
    input: Seq<T>,
    size: spec_fn(T) -> u64,
    leq: spec_fn(T, T) -> bool,
)
    ensures
        held(runs_of(state, input, size, leq)) == (state.pending + input).to_multiset(),
        forall|run: int|
            0 <= run < runs_of(state, input, size, leq).len() ==> (#[trigger] runs_of(
                state,
                input,
                size,
                leq,
            )[run]).len() > 0,
        total_preorder(leq) ==> all_sorted(runs_of(state, input, size, leq), leq),
    decreases input.len(),
{
    broadcast use vstd::multiset::group_multiset_axioms;

    let runs = runs_of(state, input, size, leq);
    if input.len() == 0 {
        assert(state.pending + input =~= state.pending);
        lemma_sorted_run(state.pending, leq);
        if state.pending.len() > 0 {
            lemma_held_prepend(sorted_run(state.pending, leq), Seq::empty());
            assert(seq![sorted_run(state.pending, leq)] + Seq::<Seq<T>>::empty() =~= runs);
            assert(held(Seq::<Seq<T>>::empty()) =~= Multiset::<T>::empty());
            assert(held(runs) =~= state.pending.to_multiset());
        } else {
            Seq::<T>::empty().to_multiset_ensures();
            assert(state.pending =~= Seq::<T>::empty());
            assert(held(runs) =~= state.pending.to_multiset());
        }
    } else {
        let (next, cut) = state.accepted(input[0], size(input[0]), leq);
        let rest = runs_of(next, input.drop_first(), size, leq);
        lemma_runs_of(next, input.drop_first(), size, leq);
        let taken = state.pending.push(input[0]);
        assert(taken + input.drop_first() =~= state.pending + input);
        match cut {
            Some(run) => {
                lemma_sorted_run(taken, leq);
                lemma_held_prepend(run, rest);
                lemma_multiset_commutative(taken, input.drop_first());
                assert(next.pending + input.drop_first() =~= input.drop_first());
                assert(held(runs) =~= (state.pending + input).to_multiset());
                assert forall|k: int| 0 <= k < runs.len() implies (#[trigger] runs[k]).len()
                    > 0 by {
                    if k > 0 {
                        assert(runs[k] == rest[k - 1]);
                    }
                }
                if total_preorder(leq) {
                    assert forall|k: int| 0 <= k < runs.len() implies sorted(
                        #[trigger] runs[k],
                        leq,
                    ) by {
                        if k > 0 {
                            assert(runs[k] == rest[k - 1]);
                        }
                    }
                }
            },
            None => {},
        }
    }
}

/// Under a total preorder, what a sort produces is non-decreasing and holds the
/// records of the input, each as often as the input does.
pub proof fn lemma_output_is_the_sorted_input<T>(
    input: Seq<T>,
    budget: u64,
    size: spec_fn(T) -> u64,
    leq: spec_fn(T, T) -> bool,
)
    requires
        total_preorder(leq),
    ensures
        sorted(sorted_output(input, budget, size, leq), leq),
        sorted_output(input, budget, size, leq).to_multiset() == input.to_multiset(),
        sorted_output(input, budget, size, leq).len() == input.len(),
{
    let start = BuilderState::<T>::initial(budget);
    let runs = runs_of(start, input, size, leq);
    lemma_runs_of(start, input, size, leq);
    lemma_merged_sorted(runs, leq);
    lemma_merged_permutes(runs, leq);
    assert(start.pending + input =~= input);
    input.to_multiset_ensures();
    sorted_output(input, budget, size, leq).to_multiset_ensures();
}

/// What a sort produces depends on the comparator and on the size estimates
/// only through the order and the sizes that they stand for: two sorts of one
/// input under one budget, by comparators that order alike and with sizes that
/// agree, produce the same sequence, record by record.
pub proof fn lemma_output_is_determined<T>(
    input: Seq<T>,
    budget: u64,
    size: spec_fn(T) -> u64,
    leq: spec_fn(T, T) -> bool,
    other_size: spec_fn(T) -> u64,
    other_leq: spec_fn(T, T) -> bool,
)
    requires
        forall|a: T, b: T| #[trigger] leq(a, b) == other_leq(a, b),
        forall|x: T| #[trigger] size(x) == other_size(x),
    ensures
        sorted_output(input, budget, size, leq) == sorted_output(
            input,
            budget,
            other_size,
            other_leq,
        ),
{
    assert(leq =~= other_leq);
    assert(size =~= other_size);
}

/// Under a total order, in which no two distinct records are equivalent, what a
/// sort produces is the same for every budget and for all size estimates.
pub proof fn lemma_output_ignores_the_budget<T>(
    input: Seq<T>,
    leq: spec_fn(T, T) -> bool,
    budget: u64,
    size: spec_fn(T) -> u64,
    other_budget: u64,
    other_size: spec_fn(T) -> u64,
)
    requires
        total_preorder(leq),
        forall|a: T, b: T| #[trigger] leq(a, b) && leq(b, a) ==> a == b,
    ensures
        sorted_output(input, budget, size, leq) == sorted_output(
            input,
            other_budget,
            other_size,
            leq,
        ),
{
    lemma_output_is_the_sorted_input(input, budget, size, leq);
    lemma_output_is_the_sorted_input(input, other_budget, other_size, leq);
    assert(vstd::relations::total_ordering(leq)) by {
        assert forall|x: T| #[trigger] leq(x, x) by {
            assert(leq(x, x) || leq(x, x));
        }
    }
    vstd::seq_lib::lemma_sorted_unique(
        sorted_output(input, budget, size, leq),
        sorted_output(input, other_budget, other_size, leq),
        leq,
    );
}

/// A sort of no records cuts no run and produces nothing.
pub proof fn lemma_nothing_in_nothing_out<T>(
    budget: u64,
    size: spec_fn(T) -> u64,
    leq: spec_fn(T, T) -> bool,
)
    ensures
        runs_of(BuilderState::<T>::initial(budget), Seq::empty(), size, leq).len() == 0,
        sorted_output(Seq::<T>::empty(), budget, size, leq) == Seq::<T>::empty(),
{
    let runs = runs_of(BuilderState::<T>::initial(budget), Seq::empty(), size, leq);
    assert(all_empty(runs));
}

/// The builder after it accepted the records `input`.
pub open spec fn state_after<T>(
    state: BuilderState<T>,
    input: Seq<T>,
    size: spec_fn(T) -> u64,
    leq: spec_fn(T, T) -> bool,
) -> BuilderState<T>
    decreases input.len(),
{
    if input.len() == 0 {
        state
    } else {
        state_after(
            state.accepted(input[0], size(input[0]), leq).0,
            input.drop_first(),
            size,
            leq,
        )
    }
}

/// The builder counts the runs that it hands out: once the input has ended, its
/// count of runs, the last run included, is the count before the input plus
/// the number of runs handed out for it.
pub proof fn lemma_runs_are_counted<T>(
    state: BuilderState<T>,
    input: Seq<T>,
    size: spec_fn(T) -> u64,
    leq: spec_fn(T, T) -> bool,
)
    requires
        state.runs + runs_of(state, input, size, leq).len() <= u64::MAX,
    ensures
        state_after(state, input, size, leq).final_runs() == state.runs + runs_of(
            state,
            input,
            size,
            leq,
        ).len(),
        state_after(state, input, size, leq).budget == state.budget,
    decreases input.len(),
{
    if input.len() > 0 {
        let next = state.accepted(input[0], size(input[0]), leq).0;
        lemma_runs_are_counted(next, input.drop_first(), size, leq);
    }
}

/// Under a budget of zero every record is a run of its own.
pub proof fn lemma_zero_budget_cuts_every_record<T>(
    state: BuilderState<T>,
    input: Seq<T>,
    size: spec_fn(T) -> u64,
    leq: spec_fn(T, T) -> bool,
)
    requires
        state.budget == 0,
        state.pending.len() == 0,
    ensures
        runs_of(state, input, size, leq).len() == input.len(),
        forall|k: int|
            0 <= k < input.len() ==> #[trigger] runs_of(state, input, size, leq)[k]
                == seq![input[k]],
    decreases input.len(),
{
    if input.len() > 0 {
        let (next, cut) = state.accepted(input[0], size(input[0]), leq);
        lemma_zero_budget_cuts_every_record(next, input.drop_first(), size, leq);
        let rest = runs_of(next, input.drop_first(), size, leq);
        let runs = runs_of(state, input, size, leq);
        assert(state.pending.push(input[0]) =~= seq![input[0]]);
        assert(runs == seq![seq![input[0]]] + rest);
        assert forall|k: int| 0 <= k < input.len() implies #[trigger] runs[k] == seq![
            input[k],
        ] by {
            if k > 0 {
                assert(runs[k] == rest[k - 1]);
                assert(input.drop_first()[k - 1] == input[k]);
            }
        }
    }
}

/// Under a budget that the sizes of all records together do not reach, the
/// records are one run.
pub proof fn lemma_large_budget_cuts_one_run<T>(
    state: BuilderState<T>,
    input: Seq<T>,
    size: spec_fn(T) -> u64,
    leq: spec_fn(T, T) -> bool,
)
    requires
        state.total + total_size(input, size) < state.budget,
        state.pending.len() + input.len() > 0,
    ensures
        runs_of(state, input, size, leq) == seq![sorted_run(state.pending + input, leq)],
    decreases input.len(),
{
    if input.len() == 0 {
        assert(state.pending + input =~= state.pending);
    } else {
        let (next, cut) = state.accepted(input[0], size(input[0]), leq);
        lemma_total_size_without_first(input, size);
        lemma_total_size_is_no_debt(input.drop_first(), size);
        lemma_large_budget_cuts_one_run(next, input.drop_first(), size, leq);
        assert(next.pending + input.drop_first() =~= state.pending + input);
    }
}

} // verus!
