//! External merge sort: a stream of records is cut into sorted runs that fit a
//! memory budget, and the runs are merged back lazily, one bounded buffer per run.
//!
//! The crate holds the decisions of the sort and performs no I/O itself. A driver
//! owns the storage and goes through two phases.
//!
//! 1. It starts a sort with [`ExternalSorter::sort`] or
//!    [`ExternalSorter::sort_by`] and hands every record of its input to
//!    [`RunBuilder::accept`]. Whenever a [`Run`] comes back it persists the
//!    records of the run in their order, one framed line each (see
//!    [`framing`]). [`RunBuilder::finish`] hands out the last run and the merge
//!    engine.
//! 2. It calls [`ExtSortedIterator::fill`] until the engine is ready, and then
//!    [`ExtSortedIterator::next`] for record after record. Whenever the engine
//!    asks for a read, the driver reads the line of that run that starts at
//!    that offset and hands what it found to [`ExtSortedIterator::feed`].
//!
//! What the functions do is stated over mathematical values: [`sorter::BuilderState`]
//! for the builder and [`merge::MergeState`] for the engine. The module [`model`]
//! says what a whole sort produces and proves that it is the input in sorted
//! order; [`driver`] proves that the engine produces just that when every read is
//! answered from intact runs; [`bounds`] proves what is held in memory at most.
pub mod bounds;
pub mod driver;
pub mod error;
pub mod framing;
pub mod merge;
pub mod model;
pub mod order;
pub mod run_sort;
pub mod sortable;
pub mod sorter;

pub use crate::error::SortError;
pub use crate::merge::{ExtSortedIterator, Fill, ReadEvent, Step};
pub use crate::sorter::{ExternalSorter, Run, RunBuilder};
pub use crate::sortable::ExternallySortable;
