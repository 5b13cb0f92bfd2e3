//! What the sort holds in memory at most: the builder less than the budget
//! before a record is accepted, and each buffer of the engine no more than its
//! share of the budget and one record.
use crate::merge::{all_empty, lemma_next_empty, MergeState, ReadEvent};
use crate::sortable::{lemma_total_size_is_no_debt, lemma_total_size_without_first, total_size};
use crate::sorter::BuilderState;
use vstd::prelude::*;

verus! {

/// The builder knows the size of what it holds, and holds less than the budget
/// as long as it holds anything.
pub open spec fn within_budget<T>(state: BuilderState<T>, size: spec_fn(T) -> u64) -> bool {
    &&& state.total == total_size(state.pending, size)
    &&& state.pending.len() > 0 ==> state.total < state.budget
}

/// A builder stays within its budget: it holds less than the budget whenever it
/// waits for the next record, and a run that it cuts is smaller than the budget
/// without the record that was accepted last.
pub proof fn lemma_builder_stays_within_budget<T>(
    state: BuilderState<T>,
    record: T,
    size: spec_fn(T) -> u64,
    leq: spec_fn(T, T) -> bool,
)
    requires
        within_budget(state, size),
    ensures
        within_budget(BuilderState::<T>::initial(state.budget), size),
        within_budget(state.accepted(record, size(record), leq).0, size),
        state.accepted(record, size(record), leq).1 is Some ==> total_size(state.pending, size)
            < state.budget || state.pending.len() == 0,
{
    assert(state.pending.push(record).drop_last() =~= state.pending);
    lemma_total_size_is_no_debt(state.pending, size);
}

/// Every buffer of the engine is within the quota but for its last record, and
/// the engine knows the size of what the refill under way has buffered.
pub open spec fn within_quota<T>(s: MergeState<T>, size: spec_fn(T) -> u64) -> bool {
    &&& s.wf()
    &&& forall|run: int|
        0 <= run < s.buffers.len() && (#[trigger] s.buffers[run]).len() > 0 ==> total_size(
            s.buffers[run].drop_last(),
            size,
        ) <= s.quota
    &&& s.filling ==> total_size(s.buffers[s.scan], size) == s.taken
}

/// Without its first record a sequence without its last is no larger.
proof fn lemma_smaller_without_first<T>(records: Seq<T>, size: spec_fn(T) -> u64)
    requires
        records.len() > 1,
    ensures
        total_size(records.drop_first().drop_last(), size) <= total_size(
            records.drop_last(),
            size,
        ),
{
    lemma_total_size_without_first(records.drop_last(), size);
    assert(records.drop_first().drop_last() =~= records.drop_last().drop_first());
}

/// A new engine is within its quota.
pub proof fn lemma_initial_within_quota<T>(runs: u64, budget: u64, size: spec_fn(T) -> u64)
    ensures
        within_quota(MergeState::<T>::initial(runs, budget), size),
{
}

/// Whatever the driver answers, the engine stays within its quota: a refill
/// stops with the record that takes its buffer over the quota.
pub proof fn lemma_feed_stays_within_quota<T>(
    s: MergeState<T>,
    event: ReadEvent<T>,
    size: spec_fn(T) -> u64,
)
    requires
        within_quota(s, size),
    ensures
        within_quota(s.fed(event, size), size),
{
    let after = s.fed(event, size);
    if s.filling {
        match event {
            ReadEvent::Record { bytes, record } => {
                let buffer = s.buffers[s.scan];
                assert(buffer.push(record).drop_last() =~= buffer);
                assert forall|run: int|
                    0 <= run < after.buffers.len() && (#[trigger] after.buffers[run]).len()
                        > 0 implies total_size(after.buffers[run].drop_last(), size)
                    <= after.quota by {
                    if run != s.scan {
                        assert(after.buffers[run] == s.buffers[run]);
                    }
                }
            },
            ReadEvent::End => {},
            ReadEvent::Failed(e) => {},
        }
    }
}

/// A step of the first fill keeps the engine within its quota.
pub proof fn lemma_fill_stays_within_quota<T>(s: MergeState<T>, size: spec_fn(T) -> u64)
    requires
        within_quota(s, size),
    ensures
        within_quota(s.fill_step().0, size),
{
    if !s.failed && s.pending is None && !s.filling {
        lemma_next_empty(s.buffers, s.scan);
    }
}

/// A step towards the next record keeps the engine within its quota, whichever
/// run gives its head.
pub proof fn lemma_step_stays_within_quota<T>(s: MergeState<T>, run: int, size: spec_fn(T) -> u64)
    requires
        within_quota(s, size),
        0 <= run < s.buffers.len(),
        s.buffers[run].len() > 0,
    ensures
        within_quota(s.step_taking(run).0, size),
{
    let after = s.step_taking(run).0;
    if !s.failed && s.pending is None {
        if !s.filling {
            lemma_next_empty(s.buffers, s.scan);
        }
        let moved = s.scanned();
        if !moved.filling && !all_empty(moved.buffers) {
            assert forall|k: int|
                0 <= k < after.buffers.len() && (#[trigger] after.buffers[k]).len()
                    > 0 implies total_size(after.buffers[k].drop_last(), size) <= after.quota by {
                if k == run {
                    lemma_smaller_without_first(s.buffers[run], size);
                } else {
                    assert(after.buffers[k] == s.buffers[k]);
                }
            }
        }
    }
}

} // verus!
