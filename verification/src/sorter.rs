//! The sorter and its run builder, which cuts the input into runs that fit the
//! budget and sorts each.
use crate::merge::{ExtSortedIterator, MergeState};
use crate::order::{callable, decides};
use crate::run_sort::{sort_run, sorted_run};
use crate::sortable::{measures, ExternallySortable};
use std::cmp::Ordering;
use std::marker::PhantomData;
use std::path::PathBuf;
use vstd::prelude::*;
use vstd::laws_cmp::{obeys_cmp, obeys_cmp_ord, obeys_partial_cmp_spec_properties};
use vstd::std_specs::cmp::{OrdSpec, PartialOrdSpec};

verus! {

/// A sorted run that is ready to be persisted.
pub struct Run<T> {
    /// The number of the run: runs are numbered from zero in the order in which
    /// they are cut.
    pub id: u64,
    /// The records of the run in sorted order.
    pub records: Vec<T>,
}

/// The run builder as a mathematical value.
#[verifier::ext_equal]
pub struct BuilderState<T> {
    /// The records that were accepted since the last run was cut, as they came.
    pub pending: Seq<T>,
    /// The sum of the sizes of the pending records.
    pub total: u64,
    /// The size at which a run is cut.
    pub budget: u64,
    /// The number of runs cut so far.
    pub runs: u64,
}

impl<T> BuilderState<T> {
    /// The builder that has accepted nothing.
    pub open spec fn initial(budget: u64) -> BuilderState<T> {
        BuilderState { pending: Seq::empty(), total: 0, budget, runs: 0 }
    }

    /// The builder after it accepted `record` of size `size`, and the run that
    /// it cut: the pending records and `record`, sorted, where their sizes
    /// reach the budget.
    pub open spec fn accepted(self, record: T, size: u64, leq: spec_fn(T, T) -> bool) -> (
        BuilderState<T>,
        Option<Seq<T>>,
    ) {
        if self.total + size >= self.budget {
            (
                BuilderState {
                    pending: Seq::empty(),
                    total: 0,
                    runs: (self.runs + 1) as u64,
                    ..self
                },
                Some(sorted_run(self.pending.push(record), leq)),
            )
        } else {
            (
                BuilderState {
                    pending: self.pending.push(record),
                    total: (self.total + size) as u64,
                    ..self
                },
                None,
            )
        }
    }

    /// The last run, which holds the pending records where there are any.
    pub open spec fn last_run(self, leq: spec_fn(T, T) -> bool) -> Option<Seq<T>> {
        if self.pending.len() > 0 {
            Some(sorted_run(self.pending, leq))
        } else {
            None
        }
    }

    /// The number of runs once the last one is cut.
    pub open spec fn final_runs(self) -> u64 {
        if self.pending.len() > 0 {
            (self.runs + 1) as u64
        } else {
            self.runs
        }
    }

    /// The merge engine for the runs that were cut, the last one included.
    pub open spec fn engine(self) -> MergeState<T> {
        MergeState::initial(self.final_runs(), self.budget)
    }
}

/// Collects records until their sizes reach the budget, and then hands them out
/// as a sorted run.
pub struct RunBuilder<T, F> {
    chunk: Vec<T>,
    total_read: u64,
    buffer_bytes: u64,
    chunks: u64,
    compare: F,
}

impl<T, F> View for RunBuilder<T, F> {
    type V = BuilderState<T>;

    closed spec fn view(&self) -> BuilderState<T> {
        BuilderState {
            pending: self.chunk@,
            total: self.total_read,
            budget: self.buffer_bytes,
            runs: self.chunks,
        }
    }
}

impl<T, F> RunBuilder<T, F> {
    /// The comparator by which the runs are sorted.
    pub closed spec fn comparator(&self) -> F {
        self.compare
    }

    /// A builder that cuts a run whenever the sizes accepted reach `budget`.
    pub fn new(budget: u64, compare: F) -> (builder: Self)
        ensures
            builder@ == BuilderState::<T>::initial(budget),
            builder.comparator() == compare,
    {
        RunBuilder { chunk: Vec::new(), total_read: 0, buffer_bytes: budget, chunks: 0, compare }
    }

    /// The number of runs cut so far, which is the number of the next run.
    pub fn runs(&self) -> (runs: u64)
        ensures
            runs == self@.runs,
    {
        self.chunks
    }

    /// Whether records are held that no run has taken yet.
    pub fn has_pending(&self) -> (pending: bool)
        ensures
            pending == (self@.pending.len() > 0),
    {
        self.chunk.len() > 0
    }

    /// Accepts the next record of the input. Where the sizes accepted since the
    /// last run reach the budget, the records are handed out as a sorted run
    /// and the builder starts over. Whatever the comparator answers and
    /// whatever sizes are reported, a run holds the records that were accepted
    /// for it.
    pub fn accept(&mut self, record: T) -> (run: Option<Run<T>>) where
        T: ExternallySortable,
        F: Fn(&T, &T) -> Ordering,

        requires
            callable(old(self).comparator()),
            old(self)@.runs < u64::MAX,
        ensures
            final(self).comparator() == old(self).comparator(),
            final(self)@.budget == old(self)@.budget,
            match run {
                Some(r) => {
                    &&& r.id == old(self)@.runs
                    &&& r.records@.to_multiset() == old(self)@.pending.push(record).to_multiset()
                    &&& final(self)@.pending == Seq::<T>::empty()
                    &&& final(self)@.total == 0
                    &&& final(self)@.runs == old(self)@.runs + 1
                },
                None => {
                    &&& final(self)@.pending == old(self)@.pending.push(record)
                    &&& final(self)@.runs == old(self)@.runs
                },
            },
            forall|leq: spec_fn(T, T) -> bool, size: spec_fn(T) -> u64|
                #![trigger decides(old(self).comparator(), leq), measures::<T>(size)]
                decides(old(self).comparator(), leq) && measures::<T>(size) ==> {
                    let (state, cut) = old(self)@.accepted(record, size(record), leq);
                    &&& final(self)@ == state
                    &&& match run {
                        Some(r) => cut == Some(r.records@) && r.id == old(self)@.runs,
                        None => cut is None,
                    }
                },
    {
        let ghost held = record;
        let n = record.get_size();
        self.chunk.push(record);
        let reached = match self.total_read.checked_add(n) {
            Some(total) => total >= self.buffer_bytes,
            None => true,
        };
        if reached {
            let mut chunk: Vec<T> = Vec::new();
            core::mem::swap(&mut self.chunk, &mut chunk);
            let records = sort_run(chunk, &self.compare);
            let id = self.chunks;
            self.total_read = 0;
            self.chunks = self.chunks + 1;
            proof {
                assert forall|leq: spec_fn(T, T) -> bool, size: spec_fn(T) -> u64|
                    #![trigger decides(old(self).comparator(), leq), measures::<T>(size)]
                    decides(old(self).comparator(), leq) && measures::<T>(size) implies {
                    let (state, cut) = old(self)@.accepted(held, size(held), leq);
                    &&& self@ == state
                    &&& cut == Some(records@)
                } by {
                    assert(n == size(held));
                }
            }
            Some(Run { id, records })
        } else {
            self.total_read = self.total_read + n;
            proof {
                assert forall|leq: spec_fn(T, T) -> bool, size: spec_fn(T) -> u64|
                    #![trigger decides(old(self).comparator(), leq), measures::<T>(size)]
                    decides(old(self).comparator(), leq) && measures::<T>(size) implies {
                    let (state, cut) = old(self)@.accepted(held, size(held), leq);
                    &&& self@ == state
                    &&& cut is None
                } by {
                    assert(n == size(held));
                }
            }
            None
        }
    }

    /// Ends the input. The pending records, if any, are handed out as the last
    /// run, together with the merge engine for all the runs that were cut.
    pub fn finish(self) -> (end: (Option<Run<T>>, ExtSortedIterator<T, F>)) where
        F: Fn(&T, &T) -> Ordering,

        requires
            callable(self.comparator()),
            self@.pending.len() > 0 ==> self@.runs < u64::MAX,
        ensures
            end.1.comparator() == self.comparator(),
            end.1@ == self@.engine(),
            end.1@.wf(),
            end.0 is Some <==> self@.pending.len() > 0,
            end.0 matches Some(r) ==> r.id == self@.runs && r.records@.to_multiset()
                == self@.pending.to_multiset(),
            forall|leq: spec_fn(T, T) -> bool| #[trigger]
                decides(self.comparator(), leq) ==> match end.0 {
                    Some(r) => self@.last_run(leq) == Some(r.records@),
                    None => self@.last_run(leq) is None,
                },
    {
        let RunBuilder { chunk, total_read: _, buffer_bytes, chunks, compare } = self;
        if chunk.len() > 0 {
            let records = sort_run(chunk, &compare);
            let engine = ExtSortedIterator::new(chunks + 1, buffer_bytes, compare);
            (Some(Run { id: chunks, records }), engine)
        } else {
            let engine = ExtSortedIterator::new(chunks, buffer_bytes, compare);
            (None, engine)
        }
    }
}

/// `std::path::PathBuf`, which the sorter carries and never looks into.
#[verifier::external_type_specification]
#[verifier::external_body]
pub struct ExPathBuf(PathBuf);

/// The natural order of `T`: `a` does not come after `b`.
pub open spec fn natural_order<T: Ord>() -> spec_fn(T, T) -> bool {
    |a: T, b: T| a.cmp_spec(&b) != Ordering::Greater
}

/// Sorts streams of records that need not fit in memory. The sorter holds the
/// memory budget and the directory under which each sort makes its workspace;
/// it can start any number of sorts.
pub struct ExternalSorter<T> where T: ExternallySortable {
    tmp_dir: Option<PathBuf>,
    buffer_bytes: u64,
    phantom: PhantomData<T>,
}

impl<T> ExternalSorter<T> where T: ExternallySortable {
    /// The memory budget of each sort.
    pub closed spec fn budget(&self) -> u64 {
        self.buffer_bytes
    }

    /// The directory under which each sort makes its workspace, if one was
    /// given.
    pub closed spec fn workspace_root(&self) -> Option<PathBuf> {
        self.tmp_dir
    }

    /// A sorter that holds at most `buffer_bytes` of records in memory and
    /// makes its workspaces under `tmp_dir`, or under the platform's temporary
    /// directory where none is given.
    pub fn new(buffer_bytes: u64, tmp_dir: Option<PathBuf>) -> (sorter: ExternalSorter<T>)
        ensures
            sorter.budget() == buffer_bytes,
            sorter.workspace_root() == tmp_dir,
    {
        ExternalSorter { buffer_bytes, tmp_dir, phantom: PhantomData }
    }

    /// The memory budget of each sort.
    pub fn buffer_bytes(&self) -> (budget: u64)
        ensures
            budget == self.budget(),
    {
        self.buffer_bytes
    }

    /// The directory under which each sort makes its workspace, if one was
    /// given.
    pub fn tmp_dir(&self) -> (root: &Option<PathBuf>)
        ensures
            *root == self.workspace_root(),
    {
        &self.tmp_dir
    }

    /// Starts a sort by the natural order of `T`, ascending.
    pub fn sort(&self) -> (builder: RunBuilder<T, impl Fn(&T, &T) -> Ordering>)
        ensures
            builder@ == BuilderState::<T>::initial(self.budget()),
            callable(builder.comparator()),
            obeys_cmp::<T>() ==> decides(builder.comparator(), natural_order::<T>()),
    {
        let compare = |a: &T, b: &T| -> (o: Ordering)
            ensures
                T::obeys_cmp_spec() ==> o == a.cmp_spec(b),
            { a.cmp(b) };
        proof {
            if obeys_cmp::<T>() {
                reveal(obeys_cmp_ord);
                reveal(obeys_partial_cmp_spec_properties);
                assert forall|a: T, b: T| a.cmp_spec(&b) == Ordering::Less <==> b.cmp_spec(&a)
                    == Ordering::Greater by {
                    assert(a.partial_cmp_spec(&b) == Some(a.cmp_spec(&b)));
                    assert(b.partial_cmp_spec(&a) == Some(b.cmp_spec(&a)));
                }
            }
        }
        RunBuilder::new(self.buffer_bytes, compare)
    }

    /// Starts a sort by the order that `compare` decides.
    pub fn sort_by<F>(&self, compare: F) -> (builder: RunBuilder<T, F>) where
        F: Fn(&T, &T) -> Ordering,

        ensures
            builder@ == BuilderState::<T>::initial(self.budget()),
            builder.comparator() == compare,
    {
        RunBuilder::new(self.buffer_bytes, compare)
    }
}

} // verus!
