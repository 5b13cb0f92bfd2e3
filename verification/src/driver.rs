//! The engine with a driver that answers every read from runs that are intact:
//! what comes out is the merge of the runs.
use crate::merge::{
    all_empty, lemma_next_empty, select, select_upto, Fill, MergeState, ReadEvent, Step,
};
use crate::model::{
    held, lemma_held_without_head, lemma_output_is_the_sorted_input, lemma_runs_are_counted,
    lemma_select_in_range, merged, runs_of, sorted_output, state_after, without_head,
};
use crate::order::{sorted, total_preorder};
use crate::sortable::total_size;
use crate::sorter::BuilderState;
use vstd::prelude::*;

verus! {

/// For each run the records that were not produced yet: those in its buffer,
/// then those that storage holds after them, `unread`.
pub open spec fn remaining<T>(s: MergeState<T>, unread: Seq<Seq<T>>) -> Seq<Seq<T>> {
    Seq::new(s.buffers.len(), |run: int| s.buffers[run] + unread[run])
}

/// What a driver answers to a read of a run of which storage holds `unread`
/// after the records read before: the next record, which takes `span` bytes,
/// or the end of the run.
pub open spec fn answer<T>(unread: Seq<T>, span: spec_fn(T) -> u64) -> ReadEvent<T> {
    if unread.len() > 0 {
        ReadEvent::Record { bytes: span(unread[0]), record: unread[0] }
    } else {
        ReadEvent::End
    }
}

/// What storage holds unread after a read of run `run` was answered.
pub open spec fn after_answer<T>(unread: Seq<Seq<T>>, run: int) -> Seq<Seq<T>> {
    if unread[run].len() > 0 {
        unread.update(run, unread[run].drop_first())
    } else {
        unread
    }
}

/// The engine and storage belong together: no failure occurred, and every run
/// that the round has passed with an empty buffer is read to its end.
pub open spec fn in_step<T>(s: MergeState<T>, unread: Seq<Seq<T>>) -> bool {
    &&& s.wf()
    &&& unread.len() == s.buffers.len()
    &&& !s.failed
    &&& s.pending is None
    &&& forall|run: int|
        0 <= run < s.scan && #[trigger] s.buffers[run].len() == 0 ==> unread[run].len() == 0
}

/// Before anything is read the engine is in step with the runs in storage, and
/// the runs are what remains.
pub proof fn lemma_initial_in_step<T>(runs: Seq<Seq<T>>, budget: u64)
    requires
        runs.len() <= u64::MAX,
    ensures
        in_step(MergeState::<T>::initial(runs.len() as u64, budget), runs),
        remaining(MergeState::<T>::initial(runs.len() as u64, budget), runs) == runs,
{
    let s = MergeState::<T>::initial(runs.len() as u64, budget);
    assert(remaining(s, runs) =~~= runs);
}

/// Moving the round on keeps the engine in step and changes nothing that
/// remains.
proof fn lemma_scanned<T>(s: MergeState<T>, unread: Seq<Seq<T>>)
    requires
        in_step(s, unread),
    ensures
        in_step(s.scanned(), unread),
        remaining(s.scanned(), unread) == remaining(s, unread),
        s.scanned().scan >= s.scan,
        s.scanned().buffers == s.buffers,
        !s.scanned().filling ==> s.scanned().scan == s.buffers.len(),
{
    if !s.filling {
        lemma_next_empty(s.buffers, s.scan);
    }
    assert(remaining(s.scanned(), unread) =~~= remaining(s, unread));
}

/// An answer from intact storage keeps the engine in step and changes nothing
/// that remains: a record moves from storage to its buffer, or the round
/// passes a run that is read to its end.
pub proof fn lemma_answer_keeps_in_step<T>(
    s: MergeState<T>,
    unread: Seq<Seq<T>>,
    size: spec_fn(T) -> u64,
    span: spec_fn(T) -> u64,
)
    requires
        in_step(s, unread),
        s.filling,
    ensures
        in_step(s.fed(answer(unread[s.scan], span), size), after_answer(unread, s.scan)),
        remaining(s.fed(answer(unread[s.scan], span), size), after_answer(unread, s.scan))
            == remaining(s, unread),
        unread[s.scan].len() > 0 ==> held(after_answer(unread, s.scan)).len() + 1 == held(
            unread,
        ).len(),
        unread[s.scan].len() == 0 ==> after_answer(unread, s.scan) == unread && s.fed(
            answer(unread[s.scan], span),
            size,
        ).scan == s.scan + 1,
{
    let after = s.fed(answer(unread[s.scan], span), size);
    let left = after_answer(unread, s.scan);
    if unread[s.scan].len() > 0 {
        lemma_held_without_head(unread, s.scan);
        assert(left == without_head(unread, s.scan));
        let r = unread[s.scan][0];
        assert(s.buffers[s.scan].push(r) + unread[s.scan].drop_first() =~= s.buffers[s.scan]
            + unread[s.scan]);
        assert(remaining(after, left) =~~= remaining(s, unread));
    } else {
        assert(remaining(after, left) =~~= remaining(s, unread));
    }
}

/// The choice among runs depends on their heads alone.
proof fn lemma_select_by_heads<T>(
    a: Seq<Seq<T>>,
    b: Seq<Seq<T>>,
    leq: spec_fn(T, T) -> bool,
    upto: int,
)
    requires
        a.len() == b.len(),
        0 <= upto <= a.len(),
        forall|run: int|
            0 <= run < a.len() ==> ((#[trigger] a[run]).len() == 0 <==> b[run].len() == 0),
        forall|run: int|
            0 <= run < a.len() && (#[trigger] a[run]).len() > 0 ==> a[run][0] == b[run][0],
    ensures
        select_upto(a, leq, upto) == select_upto(b, leq, upto),
    decreases upto,
{
    if upto > 0 {
        lemma_select_by_heads(a, b, leq, upto - 1);
        if a.len() > 0 {
            lemma_select_in_range(a, leq, upto - 1);
            let best = select_upto(a, leq, upto - 1);
            assert(a[best].len() == 0 <==> b[best].len() == 0);
            assert(a[upto - 1].len() == 0 <==> b[upto - 1].len() == 0);
        }
    }
}

/// One step of the first fill, in step with intact storage: it asks for a read
/// or is ready, and never fails.
pub proof fn lemma_fill_keeps_in_step<T>(s: MergeState<T>, unread: Seq<Seq<T>>)
    requires
        in_step(s, unread),
    ensures
        in_step(s.fill_step().0, unread),
        remaining(s.fill_step().0, unread) == remaining(s, unread),
        match s.fill_step().1 {
            Fill::Read { run, offset } => s.fill_step().0.filling && run == s.fill_step().0.scan
                && s.fill_step().0.scan >= s.scan,
            Fill::Ready => !s.fill_step().0.filling,
            Fill::Failed(e) => false,
        },
{
    lemma_scanned(s, unread);
    let moved = s.scanned();
    if !moved.filling {
        assert(remaining(s.fill_step().0, unread) =~~= remaining(s, unread));
    }
}

/// One step towards the next record, in step with intact storage: the engine
/// asks for a read, or it produces the first record of the merge of what
/// remains and the rest of that merge remains, or it is done and nothing
/// remains. It never fails.
pub proof fn lemma_step_follows_the_merge<T>(
    s: MergeState<T>,
    unread: Seq<Seq<T>>,
    leq: spec_fn(T, T) -> bool,
)
    requires
        in_step(s, unread),
    ensures
        in_step(s.step(leq).0, unread),
        match s.step(leq).1 {
            Step::Read { run, offset } => {
                &&& s.step(leq).0.filling
                &&& run == s.step(leq).0.scan
                &&& s.step(leq).0.scan >= s.scan
                &&& remaining(s.step(leq).0, unread) == remaining(s, unread)
            },
            Step::Yield(Ok(record)) => {
                &&& merged(remaining(s, unread), leq) == seq![record] + merged(
                    remaining(s.step(leq).0, unread),
                    leq,
                )
                &&& held(remaining(s.step(leq).0, unread)).len() + 1 == held(
                    remaining(s, unread),
                ).len()
            },
            Step::Yield(Err(e)) => false,
            Step::Done => merged(remaining(s, unread), leq) == Seq::<T>::empty(),
        },
{
    lemma_scanned(s, unread);
    let moved = s.scanned();
    let left = remaining(s, unread);
    if moved.filling {
    } else if all_empty(moved.buffers) {
        assert forall|run: int| 0 <= run < left.len() implies (#[trigger] left[run]).len()
            == 0 by {
            assert(moved.buffers[run].len() == 0);
        }
    } else {
        let run = select(moved.buffers, leq);
        lemma_select_in_range(moved.buffers, leq, moved.buffers.len() as int);
        assert forall|k: int| 0 <= k < left.len() implies ((#[trigger] moved.buffers[k]).len()
            == 0 <==> left[k].len() == 0) by {}
        lemma_select_by_heads(moved.buffers, left, leq, left.len() as int);
        assert(select(left, leq) == run);
        let after = s.step(leq).0;
        assert(remaining(after, unread) =~~= without_head(left, run)) by {
            assert((moved.buffers[run] + unread[run]).drop_first() =~= moved.buffers[run].drop_first()
                + unread[run]);
        }
        assert(left[run].len() > 0);
        assert(!all_empty(left));
        lemma_held_without_head(left, run);
    }
}

/// The engine and storage after a read of the run under refill was answered.
pub open spec fn answered<T>(
    s: MergeState<T>,
    unread: Seq<Seq<T>>,
    size: spec_fn(T) -> u64,
    span: spec_fn(T) -> u64,
) -> (MergeState<T>, Seq<Seq<T>>) {
    (s.fed(answer(unread[s.scan], span), size), after_answer(unread, s.scan))
}

/// The records that the engine produces within `steps` steps when every read
/// that it asks for is answered from storage.
pub open spec fn produced<T>(
    s: MergeState<T>,
    unread: Seq<Seq<T>>,
    leq: spec_fn(T, T) -> bool,
    size: spec_fn(T) -> u64,
    span: spec_fn(T) -> u64,
    steps: nat,
) -> Seq<T>
    decreases steps,
{
    if steps == 0 {
        Seq::empty()
    } else {
        let (after, step) = s.step(leq);
        match step {
            Step::Read { run, offset } => {
                let (fed, left) = answered(after, unread, size, span);
                produced(fed, left, leq, size, span, (steps - 1) as nat)
            },
            Step::Yield(Ok(record)) => seq![record] + produced(
                after,
                unread,
                leq,
                size,
                span,
                (steps - 1) as nat,
            ),
            Step::Yield(Err(e)) => Seq::empty(),
            Step::Done => Seq::empty(),
        }
    }
}

/// An engine in step with intact storage produces the merge of what remains:
/// after the number of steps that is returned, and however many steps follow,
/// the records produced are that merge.
pub proof fn lemma_produces_the_merge<T>(
    s: MergeState<T>,
    unread: Seq<Seq<T>>,
    leq: spec_fn(T, T) -> bool,
    size: spec_fn(T) -> u64,
    span: spec_fn(T) -> u64,
) -> (enough: nat)
    requires
        in_step(s, unread),
    ensures
        forall|steps: nat|
            steps >= enough ==> #[trigger] produced(s, unread, leq, size, span, steps) == merged(
                remaining(s, unread),
                leq,
            ),
    decreases held(remaining(s, unread)).len(), held(unread).len(), s.buffers.len() - s.scan,
{
    lemma_step_follows_the_merge(s, unread, leq);
    let (after, step) = s.step(leq);
    match step {
        Step::Read { run, offset } => {
            lemma_answer_keeps_in_step(after, unread, size, span);
            let (fed, left) = answered(after, unread, size, span);
            let rest = lemma_produces_the_merge(fed, left, leq, size, span);
            assert forall|steps: nat| steps >= rest + 1 implies #[trigger] produced(
                s,
                unread,
                leq,
                size,
                span,
                steps,
            ) == merged(remaining(s, unread), leq) by {
                assert(produced(fed, left, leq, size, span, (steps - 1) as nat) == merged(
                    remaining(fed, left),
                    leq,
                ));
            }
            rest + 1
        },
        Step::Yield(Ok(record)) => {
            let rest = lemma_produces_the_merge(after, unread, leq, size, span);
            assert forall|steps: nat| steps >= rest + 1 implies #[trigger] produced(
                s,
                unread,
                leq,
                size,
                span,
                steps,
            ) == merged(remaining(s, unread), leq) by {
                assert(produced(after, unread, leq, size, span, (steps - 1) as nat) == merged(
                    remaining(after, unread),
                    leq,
                ));
            }
            rest + 1
        },
        Step::Yield(Err(e)) => 1,
        Step::Done => 1,
    }
}

/// The engine and storage after the first fill has taken `steps` steps, each
/// read answered from storage, or has come to its end before.
pub open spec fn primed<T>(
    s: MergeState<T>,
    unread: Seq<Seq<T>>,
    size: spec_fn(T) -> u64,
    span: spec_fn(T) -> u64,
    steps: nat,
) -> (MergeState<T>, Seq<Seq<T>>)
    decreases steps,
{
    if steps == 0 {
        (s, unread)
    } else {
        let (after, need) = s.fill_step();
        match need {
            Fill::Read { run, offset } => {
                let (fed, left) = answered(after, unread, size, span);
                primed(fed, left, size, span, (steps - 1) as nat)
            },
            Fill::Ready => (after, unread),
            Fill::Failed(e) => (after, unread),
        }
    }
}

/// The first fill of an engine in step with intact storage comes to its end:
/// after the number of steps that is returned the engine is ready, still in
/// step, and nothing that remains has changed.
pub proof fn lemma_first_fill_ends<T>(
    s: MergeState<T>,
    unread: Seq<Seq<T>>,
    size: spec_fn(T) -> u64,
    span: spec_fn(T) -> u64,
) -> (enough: nat)
    requires
        in_step(s, unread),
    ensures
        forall|steps: nat|
            steps >= enough ==> {
                let (ready, left) = #[trigger] primed(s, unread, size, span, steps);
                &&& (ready, left) == primed(s, unread, size, span, enough)
                &&& in_step(ready, left)
                &&& !ready.filling
                &&& remaining(ready, left) == remaining(s, unread)
            },
    decreases held(unread).len(), s.buffers.len() - s.scan,
{
    lemma_fill_keeps_in_step(s, unread);
    let (after, need) = s.fill_step();
    match need {
        Fill::Read { run, offset } => {
            lemma_answer_keeps_in_step(after, unread, size, span);
            let (fed, left) = answered(after, unread, size, span);
            let rest = lemma_first_fill_ends(fed, left, size, span);
            assert forall|steps: nat| steps >= rest + 1 implies {
                let (ready, left) = #[trigger] primed(s, unread, size, span, steps);
                &&& (ready, left) == primed(s, unread, size, span, rest + 1)
                &&& in_step(ready, left)
                &&& !ready.filling
                &&& remaining(ready, left) == remaining(s, unread)
            } by {
                assert(primed(s, unread, size, span, steps) == primed(
                    fed,
                    left,
                    size,
                    span,
                    (steps - 1) as nat,
                ));
                assert(primed(s, unread, size, span, rest + 1) == primed(
                    fed,
                    left,
                    size,
                    span,
                    rest,
                ));
            }
            rest + 1
        },
        Fill::Ready => 1,
        Fill::Failed(e) => 1,
    }
}

/// What a whole sort of `input` with intact storage produces: the runs that the
/// builder cuts are persisted, the engine for them takes `filling` steps of its
/// first fill and then `producing` steps towards record after record.
pub open spec fn sorted_with_storage<T>(
    input: Seq<T>,
    budget: u64,
    leq: spec_fn(T, T) -> bool,
    size: spec_fn(T) -> u64,
    span: spec_fn(T) -> u64,
    filling: nat,
    producing: nat,
) -> Seq<T> {
    let start = BuilderState::<T>::initial(budget);
    let (ready, left) = primed(
        state_after(start, input, size, leq).engine(),
        runs_of(start, input, size, leq),
        size,
        span,
        filling,
    );
    produced(ready, left, leq, size, span, producing)
}

/// A whole sort with intact storage produces the sorted output of the input,
/// which under a total preorder is non-decreasing and holds the records of the
/// input, each as often as the input does. This holds once the fill and the
/// production have taken the numbers of steps that are returned, and however
/// many steps follow.
pub proof fn lemma_sort_produces_the_sorted_input<T>(
    input: Seq<T>,
    budget: u64,
    leq: spec_fn(T, T) -> bool,
    size: spec_fn(T) -> u64,
    span: spec_fn(T) -> u64,
) -> (enough: (nat, nat))
    requires
        total_preorder(leq),
        runs_of(BuilderState::initial(budget), input, size, leq).len() <= u64::MAX,
    ensures
        forall|filling: nat, producing: nat|
            filling >= enough.0 && producing >= enough.1 ==> {
                let output = #[trigger] sorted_with_storage(
                    input,
                    budget,
                    leq,
                    size,
                    span,
                    filling,
                    producing,
                );
                &&& output == sorted_output(input, budget, size, leq)
                &&& sorted(output, leq)
                &&& output.to_multiset() == input.to_multiset()
            },
{
    let start = BuilderState::<T>::initial(budget);
    let runs = runs_of(start, input, size, leq);
    lemma_runs_are_counted(start, input, size, leq);
    let engine = state_after(start, input, size, leq).engine();
    assert(engine == MergeState::<T>::initial(runs.len() as u64, budget));
    lemma_initial_in_step(runs, budget);
    lemma_output_is_the_sorted_input(input, budget, size, leq);
    let fill = lemma_first_fill_ends(engine, runs, size, span);
    let (ready, left) = primed(engine, runs, size, span, fill);
    let produce = lemma_produces_the_merge(ready, left, leq, size, span);
    assert forall|filling: nat, producing: nat|
        filling >= fill && producing >= produce implies {
        let output = #[trigger] sorted_with_storage(
            input,
            budget,
            leq,
            size,
            span,
            filling,
            producing,
        );
        &&& output == sorted_output(input, budget, size, leq)
        &&& sorted(output, leq)
        &&& output.to_multiset() == input.to_multiset()
    } by {
        assert(primed(engine, runs, size, span, filling) == primed(
            engine,
            runs,
            size,
            span,
            fill,
        ));
        assert(produced(ready, left, leq, size, span, producing) == merged(
            remaining(ready, left),
            leq,
        ));
    }
    (fill, produce)
}

/// The cursor of each run stands where the records read from it so far end:
/// `read` holds these records for each run, and `span` the bytes that a record
/// takes in storage.
pub open spec fn cursors_follow<T>(
    s: MergeState<T>,
    read: Seq<Seq<T>>,
    span: spec_fn(T) -> u64,
) -> bool {
    &&& read.len() == s.cursors.len()
    &&& forall|run: int|
        0 <= run < s.cursors.len() ==> #[trigger] s.cursors[run] == total_size(read[run], span)
}

/// The records read from each run after a read of run `run` was answered.
pub open spec fn after_reading<T>(read: Seq<Seq<T>>, unread: Seq<Seq<T>>, run: int) -> Seq<Seq<T>> {
    if unread[run].len() > 0 {
        read.update(run, read[run].push(unread[run][0]))
    } else {
        read
    }
}

/// The engine asks for each run where its last read stopped. The cursors are
/// at zero before anything is read; an answer moves the cursor of its run on
/// by the bytes of the record, as long as the offsets fit their type; and no
/// step of the engine moves a cursor.
pub proof fn lemma_cursors_follow_the_reads<T>(
    s: MergeState<T>,
    read: Seq<Seq<T>>,
    unread: Seq<Seq<T>>,
    size: spec_fn(T) -> u64,
    span: spec_fn(T) -> u64,
    run: int,
)
    requires
        s.wf(),
        unread.len() == s.buffers.len(),
        cursors_follow(s, read, span),
        s.filling && unread[s.scan].len() > 0 ==> total_size(
            read[s.scan].push(unread[s.scan][0]),
            span,
        ) <= u64::MAX,
    ensures
        cursors_follow(
            MergeState::<T>::initial(s.buffers.len() as u64, s.quota),
            Seq::new(s.buffers.len(), |k: int| Seq::empty()),
            span,
        ),
        s.filling ==> cursors_follow(
            s.fed(answer(unread[s.scan], span), size),
            after_reading(read, unread, s.scan),
            span,
        ),
        cursors_follow(s.fill_step().0, read, span),
        cursors_follow(s.step_taking(run).0, read, span),
        s.fill_step().1 matches Fill::Read { run, offset } ==> offset == total_size(
            read[run as int],
            span,
        ),
        s.step_taking(run).1 matches Step::Read { run, offset } ==> offset == total_size(
            read[run as int],
            span,
        ),
{
    if s.filling && unread[s.scan].len() > 0 {
        let record = unread[s.scan][0];
        assert(read[s.scan].push(record).drop_last() =~= read[s.scan]);
    }
    if !s.filling {
        lemma_next_empty(s.buffers, s.scan);
    }
}

} // verus!
