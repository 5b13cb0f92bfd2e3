//! The merge engine: one bounded buffer per run, and the smallest head next.
//!
//! The engine decides and a driver reads. [`ExtSortedIterator::fill`] and
//! [`ExtSortedIterator::next`] say which line of which run they need, the driver
//! reads it and hands it to [`ExtSortedIterator::feed`].
use crate::error::SortError;
use crate::order::{callable, decides, is_less};
use crate::sortable::{measures, ExternallySortable};
use std::cmp::Ordering;
use std::collections::VecDeque;
use vstd::prelude::*;

verus! {

/// What a driver found where the engine asked it to read.
pub enum ReadEvent<T> {
    /// One record, which took `bytes` bytes of the run, its terminator included.
    Record { bytes: u64, record: T },
    /// The run holds nothing at or after the offset.
    End,
    /// The read or the decoding failed.
    Failed(SortError),
}

/// What the engine needs while its buffers are filled for the first time.
pub enum Fill {
    /// The line of run `run` that starts at byte `offset`.
    Read { run: u64, offset: u64 },
    /// Every run was asked; the engine is ready to produce.
    Ready,
    /// A read failed; the sort cannot start.
    Failed(SortError),
}

/// What the engine does when asked for the next record.
pub enum Step<T> {
    /// It needs the line of run `run` that starts at byte `offset`.
    Read { run: u64, offset: u64 },
    /// It produces the next record, or the failure that ends the sequence.
    Yield(Result<T, SortError>),
    /// The sequence is exhausted.
    Done,
}

/// The engine as a mathematical value.
#[verifier::ext_equal]
pub struct MergeState<T> {
    /// For each run, the records read and not yet produced, in run order.
    pub buffers: Seq<Seq<T>>,
    /// For each run, the byte offset at which its next read starts.
    pub cursors: Seq<u64>,
    /// The size that one refill may buffer before it stops.
    pub quota: u64,
    /// The run that the current round examines next.
    pub scan: int,
    /// Whether a refill of run `scan` is under way.
    pub filling: bool,
    /// The size that the refill under way has buffered.
    pub taken: u64,
    /// A failure that was fed and is not yet reported.
    pub pending: Option<SortError>,
    /// Whether a failure was reported, after which nothing is produced.
    pub failed: bool,
}

/// The run whose head goes next, after the first `upto` runs were examined: a
/// run replaces the choice only if its head is strictly smaller.
pub open spec fn select_upto<T>(buffers: Seq<Seq<T>>, leq: spec_fn(T, T) -> bool, upto: int) -> int
    decreases upto,
{
    if upto <= 0 {
        0
    } else {
        let best = select_upto(buffers, leq, upto - 1);
        let run = upto - 1;
        if buffers[run].len() > 0 && (buffers[best].len() == 0 || !leq(
            buffers[best][0],
            buffers[run][0],
        )) {
            run
        } else {
            best
        }
    }
}

/// The run whose head goes next.
pub open spec fn select<T>(buffers: Seq<Seq<T>>, leq: spec_fn(T, T) -> bool) -> int {
    select_upto(buffers, leq, buffers.len() as int)
}

/// The first run at or after `from` whose buffer is empty, or the number of runs.
pub open spec fn next_empty<T>(buffers: Seq<Seq<T>>, from: int) -> int
    decreases buffers.len() - from,
{
    if from >= buffers.len() {
        buffers.len() as int
    } else if buffers[from].len() == 0 {
        from
    } else {
        next_empty(buffers, from + 1)
    }
}

/// Where a round moves on to: every run that it passes has a buffered record,
/// and the run at which it stops has none.
pub proof fn lemma_next_empty<T>(buffers: Seq<Seq<T>>, from: int)
    requires
        0 <= from <= buffers.len(),
    ensures
        from <= next_empty(buffers, from) <= buffers.len(),
        next_empty(buffers, from) < buffers.len() ==> buffers[next_empty(buffers, from)].len()
            == 0,
        forall|run: int|
            from <= run < next_empty(buffers, from) ==> (#[trigger] buffers[run]).len() > 0,
    decreases buffers.len() - from,
{
    if from < buffers.len() && buffers[from].len() > 0 {
        lemma_next_empty(buffers, from + 1);
    }
}

/// No run has a buffered record.
pub open spec fn all_empty<T>(buffers: Seq<Seq<T>>) -> bool {
    forall|run: int| 0 <= run < buffers.len() ==> #[trigger] buffers[run].len() == 0
}

impl<T> MergeState<T> {
    /// The engine of `runs` runs under `budget`, before anything was read.
    pub open spec fn initial(runs: u64, budget: u64) -> MergeState<T> {
        MergeState {
            buffers: Seq::new(runs as nat, |run: int| Seq::empty()),
            cursors: Seq::new(runs as nat, |run: int| 0u64),
            quota: if runs == 0 {
                budget
            } else {
                budget / runs
            },
            scan: 0,
            filling: false,
            taken: 0,
            pending: None,
            failed: false,
        }
    }

    /// What holds of every engine.
    pub open spec fn wf(self) -> bool {
        &&& self.cursors.len() == self.buffers.len()
        &&& self.buffers.len() <= u64::MAX
        &&& 0 <= self.scan <= self.buffers.len()
        &&& self.filling ==> self.scan < self.buffers.len() && self.pending is None
            && !self.failed && self.taken <= self.quota
    }

    /// The round moved on: to a refill of the next run whose buffer is empty, or
    /// past the last run.
    pub open spec fn scanned(self) -> MergeState<T> {
        if self.filling {
            self
        } else {
            let at = next_empty(self.buffers, self.scan);
            if at < self.buffers.len() {
                MergeState { scan: at, filling: true, taken: 0, ..self }
            } else {
                MergeState { scan: at, ..self }
            }
        }
    }

    /// The engine after the driver answered a read with `event`, where `size`
    /// gives the size of a record. A refill stops at the end of the run and once
    /// it has buffered more than the quota. Nothing changes where no read was
    /// asked for.
    pub open spec fn fed(self, event: ReadEvent<T>, size: spec_fn(T) -> u64) -> MergeState<T> {
        if !self.filling {
            self
        } else {
            match event {
                ReadEvent::Record { bytes, record } => {
                    let buffers = self.buffers.update(
                        self.scan,
                        self.buffers[self.scan].push(record),
                    );
                    let cursors = self.cursors.update(
                        self.scan,
                        (self.cursors[self.scan] + bytes) as u64,
                    );
                    if self.taken + size(record) > self.quota {
                        MergeState { buffers, cursors, filling: false, scan: self.scan + 1, ..self }
                    } else {
                        MergeState {
                            buffers,
                            cursors,
                            taken: (self.taken + size(record)) as u64,
                            ..self
                        }
                    }
                },
                ReadEvent::End => MergeState { filling: false, scan: self.scan + 1, ..self },
                ReadEvent::Failed(e) => MergeState { filling: false, pending: Some(e), ..self },
            }
        }
    }

    /// One step of the first fill, and the engine after it.
    pub open spec fn fill_step(self) -> (MergeState<T>, Fill) {
        if self.failed {
            (self, Fill::Ready)
        } else if self.pending is Some {
            (MergeState { failed: true, pending: None, ..self }, Fill::Failed(self.pending.unwrap()))
        } else {
            let s = self.scanned();
            if s.filling {
                (s, Fill::Read { run: s.scan as u64, offset: s.cursors[s.scan] })
            } else {
                (MergeState { scan: 0, ..s }, Fill::Ready)
            }
        }
    }

    /// One step towards the next record where `run` is the run whose head goes
    /// next, and the engine after it. A round asks for a refill of every run
    /// whose buffer is empty; then the head of `run` is produced, or the
    /// sequence ends where every buffer stayed empty. A failure is produced
    /// once, and nothing after it.
    pub open spec fn step_taking(self, run: int) -> (MergeState<T>, Step<T>) {
        if self.failed {
            (self, Step::Done)
        } else if self.pending is Some {
            (
                MergeState { failed: true, pending: None, ..self },
                Step::Yield(Err(self.pending.unwrap())),
            )
        } else {
            let s = self.scanned();
            if s.filling {
                (s, Step::Read { run: s.scan as u64, offset: s.cursors[s.scan] })
            } else if all_empty(s.buffers) {
                (MergeState { scan: 0, ..s }, Step::Done)
            } else {
                (
                    MergeState {
                        scan: 0,
                        buffers: s.buffers.update(run, s.buffers[run].drop_first()),
                        ..s
                    },
                    Step::Yield(Ok(s.buffers[run][0])),
                )
            }
        }
    }

    /// One step towards the next record, and the engine after it: the head that
    /// goes next is the smallest under `leq`, that of the lowest run where
    /// several are smallest.
    pub open spec fn step(self, leq: spec_fn(T, T) -> bool) -> (MergeState<T>, Step<T>) {
        self.step_taking(select(self.scanned().buffers, leq))
    }
}

/// A failure that is fed while a read is awaited ends the sequence: the next
/// step produces it, and every step after that is done and changes nothing.
pub proof fn lemma_failure_is_produced_once<T>(
    s: MergeState<T>,
    e: SortError,
    size: spec_fn(T) -> u64,
    leq: spec_fn(T, T) -> bool,
)
    requires
        s.wf(),
        s.filling,
    ensures
        s.fed(ReadEvent::Failed(e), size).step(leq).1 == Step::<T>::Yield(Err(e)),
        s.fed(ReadEvent::Failed(e), size).fill_step().1 == Fill::Failed(e),
        ({
            let ended = s.fed(ReadEvent::Failed(e), size).step(leq).0;
            &&& ended.failed
            &&& ended.step(leq) == (ended, Step::<T>::Done)
            &&& forall|event: ReadEvent<T>| #[trigger] ended.fed(event, size) == ended
        }),
{
}

/// The records that each buffer holds.
pub open spec fn queues<T>(buffers: Seq<VecDeque<T>>) -> Seq<Seq<T>> {
    buffers.map_values(|q: VecDeque<T>| q@)
}

/// Where a round of the engine stands after it moved on.
enum Scan {
    Read { run: u64, offset: u64 },
    Complete,
    Failed(SortError),
    Halted,
}

/// The lazily merged output of a sort: the buffers of the runs, their read
/// cursors and the comparator.
pub struct ExtSortedIterator<T, F> {
    buffers: Vec<VecDeque<T>>,
    chunk_offsets: Vec<u64>,
    max_per_chunk: u64,
    scan: usize,
    filling: bool,
    taken: u64,
    pending: Option<SortError>,
    compare: F,
    failed: bool,
}

impl<T, F> View for ExtSortedIterator<T, F> {
    type V = MergeState<T>;

    closed spec fn view(&self) -> MergeState<T> {
        MergeState {
            buffers: queues(self.buffers@),
            cursors: self.chunk_offsets@,
            quota: self.max_per_chunk,
            scan: self.scan as int,
            filling: self.filling,
            taken: self.taken,
            pending: self.pending,
            failed: self.failed,
        }
    }
}

/// The first run at or after `from` whose buffer is empty.
fn first_empty<T>(buffers: &Vec<VecDeque<T>>, from: usize) -> (at: usize)
    requires
        from <= buffers.len(),
    ensures
        at == next_empty(queues(buffers@), from as int),
        from <= at <= buffers.len(),
{
    let mut at = from;
    while at < buffers.len() && buffers[at].len() > 0
        invariant
            from <= at <= buffers.len(),
            next_empty(queues(buffers@), at as int) == next_empty(queues(buffers@), from as int),
        decreases buffers.len() - at,
    {
        at = at + 1;
    }
    at
}

/// Whether no run has a buffered record.
fn none_buffered<T>(buffers: &Vec<VecDeque<T>>) -> (none: bool)
    ensures
        none == all_empty(queues(buffers@)),
{
    let mut run: usize = 0;
    while run < buffers.len()
        invariant
            run <= buffers.len(),
            forall|k: int| 0 <= k < run ==> #[trigger] queues(buffers@)[k].len() == 0,
        decreases buffers.len() - run,
    {
        if buffers[run].len() > 0 {
            assert(queues(buffers@)[run as int].len() > 0);
            return false;
        }
        run = run + 1;
    }
    true
}

/// The number of a run.
fn run_id(run: usize) -> (id: u64)
    ensures
        id == run,
{
    run as u64
}

/// The place of a run among the buffers.
spec fn place(run: usize) -> int {
    run as int
}

/// The run whose head the comparator puts first, the lowest such run on ties.
fn pick<T, F: Fn(&T, &T) -> Ordering>(buffers: &Vec<VecDeque<T>>, f: &F) -> (run: usize)
    requires
        callable(*f),
        !all_empty(queues(buffers@)),
    ensures
        run < buffers.len(),
        queues(buffers@)[place(run)].len() > 0,
        forall|leq: spec_fn(T, T) -> bool| #[trigger]
            decides(*f, leq) ==> run == select(queues(buffers@), leq),
{
    let ghost heads = queues(buffers@);
    let mut best: usize = 0;
    let mut run: usize = 0;
    let ghost mut chosen: int = 0;
    let ghost mut seen: int = 0;
    while run < buffers.len()
        invariant
            callable(*f),
            heads == queues(buffers@),
            heads.len() > 0,
            seen == run,
            chosen == best,
            0 <= seen <= heads.len(),
            0 <= chosen < heads.len(),
            forall|k: int| 0 <= k < seen && #[trigger] heads[k].len() > 0 ==> heads[chosen].len() > 0,
            forall|leq: spec_fn(T, T) -> bool| #[trigger]
                decides(*f, leq) ==> chosen == select_upto(heads, leq, seen),
        decreases buffers.len() - run,
    {
        if buffers[run].len() > 0 {
            let replace = if buffers[best].len() == 0 {
                true
            } else {
                is_less(f, &buffers[run][0], &buffers[best][0])
            };
            if replace {
                best = run;
                proof {
                    chosen = seen;
                }
            }
        }
        run = run + 1;
        proof {
            seen = seen + 1;
        }
    }
    best
}

impl<T, F> ExtSortedIterator<T, F> {
    /// The comparator by which the heads are chosen.
    pub closed spec fn comparator(&self) -> F {
        self.compare
    }

    /// The engine of `runs` runs, none of which was read yet. Each run may
    /// buffer `budget / runs`.
    pub fn new(runs: u64, budget: u64, compare: F) -> (engine: Self)
        ensures
            engine@ == MergeState::<T>::initial(runs, budget),
            engine@.wf(),
            engine.comparator() == compare,
    {
        let mut buffers: Vec<VecDeque<T>> = Vec::new();
        let mut chunk_offsets: Vec<u64> = Vec::new();
        let mut made: u64 = 0;
        while made < runs
            invariant
                made <= runs,
                buffers@.len() == made,
                chunk_offsets@.len() == made,
                forall|k: int| 0 <= k < made ==> #[trigger] buffers@[k]@ == Seq::<T>::empty(),
                forall|k: int| 0 <= k < made ==> #[trigger] chunk_offsets@[k] == 0,
            decreases runs - made,
        {
            buffers.push(VecDeque::new());
            chunk_offsets.push(0);
            made = made + 1;
        }
        let max_per_chunk = if runs == 0 {
            budget
        } else {
            budget / runs
        };
        let engine = ExtSortedIterator {
            buffers,
            chunk_offsets,
            max_per_chunk,
            scan: 0,
            filling: false,
            taken: 0,
            pending: None,
            compare,
            failed: false,
        };
        assert(engine@.buffers =~~= MergeState::<T>::initial(runs, budget).buffers);
        assert(engine@.cursors =~= MergeState::<T>::initial(runs, budget).cursors);
        engine
    }

    /// Moves the round on and says where it stands.
    fn advance(&mut self) -> (at: Scan)
        requires
            old(self)@.wf(),
        ensures
            final(self)@.wf(),
            final(self).comparator() == old(self).comparator(),
            old(self)@.failed ==> at is Halted && final(self)@ == old(self)@,
            !old(self)@.failed && old(self)@.pending is Some ==> at == Scan::Failed(
                old(self)@.pending.unwrap(),
            ) && final(self)@ == (MergeState { failed: true, pending: None, ..old(self)@ }),
            !old(self)@.failed && old(self)@.pending is None ==> final(self)@
                == old(self)@.scanned() && (if final(self)@.filling {
                at == (Scan::Read {
                    run: final(self)@.scan as u64,
                    offset: final(self)@.cursors[final(self)@.scan],
                })
            } else {
                at is Complete && final(self)@.scan == final(self)@.buffers.len()
            }),
    {
        if self.failed {
            return Scan::Halted;
        }
        if self.pending.is_some() {
            let e = self.pending.take().unwrap();
            self.failed = true;
            return Scan::Failed(e);
        }
        if !self.filling {
            let at = first_empty(&self.buffers, self.scan);
            self.scan = at;
            if at < self.buffers.len() {
                self.taken = 0;
                self.filling = true;
            }
        }
        if self.filling {
            Scan::Read { run: run_id(self.scan), offset: self.chunk_offsets[self.scan] }
        } else {
            Scan::Complete
        }
    }

    /// Takes the driver's answer to the read that was asked for last. A record
    /// goes to the end of its run's buffer and moves the run's cursor on by the
    /// bytes it took. Returns whether a read was asked for: an answer to
    /// nothing is dropped.
    pub fn feed(&mut self, event: ReadEvent<T>) -> (accepted: bool) where T: ExternallySortable
        requires
            old(self)@.wf(),
            old(self)@.filling ==> (event matches ReadEvent::Record { bytes, .. }
                ==> old(self)@.cursors[old(self)@.scan] + bytes <= u64::MAX),
        ensures
            final(self)@.wf(),
            final(self).comparator() == old(self).comparator(),
            accepted == old(self)@.filling,
            forall|size: spec_fn(T) -> u64| #[trigger]
                measures::<T>(size) ==> final(self)@ == old(self)@.fed(event, size),
            !(old(self)@.filling && event is Record) ==> forall|size: spec_fn(T) -> u64|
                final(self)@ == #[trigger] old(self)@.fed(event, size),
    {
        if !self.filling {
            return false;
        }
        let at = self.scan;
        let runs = self.buffers.len();
        assert(at < runs) by {
            assert(self@.buffers.len() == self.buffers@.len());
        }
        match event {
            ReadEvent::Record { bytes, record } => {
                let ghost held = record;
                let n = record.get_size();
                let cursor = self.chunk_offsets[at];
                self.chunk_offsets.set(at, cursor + bytes);
                self.buffers[at].push_back(record);
                let over = match self.taken.checked_add(n) {
                    Some(total) => total > self.max_per_chunk,
                    None => true,
                };
                if over {
                    self.filling = false;
                    self.scan = at + 1;
                } else {
                    self.taken = self.taken + n;
                }
                proof {
                    assert(self@.buffers =~~= old(self)@.buffers.update(
                        at as int,
                        old(self)@.buffers[at as int].push(held),
                    ));
                    assert forall|size: spec_fn(T) -> u64| #[trigger]
                        measures::<T>(size) implies self@ == old(self)@.fed(event, size) by {
                        assert(n == size(held));
                    }
                }
            },
            ReadEvent::End => {
                self.filling = false;
                self.scan = at + 1;
                assert(self@.buffers =~~= old(self)@.buffers);
            },
            ReadEvent::Failed(e) => {
                self.filling = false;
                self.pending = Some(e);
                assert(self@.buffers =~~= old(self)@.buffers);
            },
        }
        true
    }

    /// One step of the first fill, which asks every run for its first records.
    pub fn fill(&mut self) -> (need: Fill)
        requires
            old(self)@.wf(),
        ensures
            final(self)@.wf(),
            final(self).comparator() == old(self).comparator(),
            (final(self)@, need) == old(self)@.fill_step(),
    {
        match self.advance() {
            Scan::Read { run, offset } => Fill::Read { run, offset },
            Scan::Complete => {
                self.scan = 0;
                Fill::Ready
            },
            Scan::Failed(e) => Fill::Failed(e),
            Scan::Halted => Fill::Ready,
        }
    }

    /// One step towards the next record of the sorted sequence.
    pub fn next(&mut self) -> (step: Step<T>) where F: Fn(&T, &T) -> Ordering
        requires
            old(self)@.wf(),
            callable(old(self).comparator()),
        ensures
            final(self)@.wf(),
            final(self).comparator() == old(self).comparator(),
            forall|leq: spec_fn(T, T) -> bool| #[trigger]
                decides(old(self).comparator(), leq) ==> (final(self)@, step) == old(self)@.step(
                    leq,
                ),
            exists|run: int|
                {
                    &&& (final(self)@, step) == #[trigger] old(self)@.step_taking(run)
                    &&& step matches Step::Yield(Ok(_)) ==> 0 <= run < old(self)@.buffers.len()
                        && old(self)@.scanned().buffers[run].len() > 0
                },
    {
        match self.advance() {
            Scan::Read { run, offset } => {
                assert((self@, Step::<T>::Read { run, offset }) == old(self)@.step_taking(0));
                Step::Read { run, offset }
            },
            Scan::Failed(e) => {
                assert((self@, Step::<T>::Yield(Err(e))) == old(self)@.step_taking(0));
                Step::Yield(Err(e))
            },
            Scan::Halted => {
                assert((self@, Step::<T>::Done) == old(self)@.step_taking(0));
                Step::Done
            },
            Scan::Complete => {
                let ghost s = self@;
                self.scan = 0;
                if none_buffered(&self.buffers) {
                    assert((self@, Step::<T>::Done) == old(self)@.step_taking(0));
                    Step::Done
                } else {
                    let run = pick(&self.buffers, &self.compare);
                    let record = self.buffers[run].pop_front().unwrap();
                    proof {
                        let chosen = place(run);
                        assert(self@.buffers =~~= s.buffers.update(
                            chosen,
                            s.buffers[chosen].drop_first(),
                        ));
                        assert(record == s.buffers[chosen][0]);
                        assert((self@, Step::Yield(Ok(record))) == old(self)@.step_taking(chosen));
                    }
                    Step::Yield(Ok(record))
                }
            },
        }
    }
}

} // verus!
