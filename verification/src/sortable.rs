//! Records that can be sorted externally.
use vstd::prelude::*;

verus! {

/// A record that the external sort accepts: it is ordered, can be copied, and
/// reports an estimate of its size.
pub trait ExternallySortable: Ord + Clone {
    /// The size of this record in bytes, by which memory use is bounded. A type
    /// that cannot tell may report 1, and the budget then counts records.
    fn get_size(&self) -> u64;
}

/// `size` is the estimate that `get_size` reports for each record.
pub open spec fn measures<T: ExternallySortable>(size: spec_fn(T) -> u64) -> bool {
    forall|x: T, n: u64| #[trigger] call_ensures(T::get_size, (&x,), n) ==> n == size(x)
}

/// The sum of the sizes of the records.
pub open spec fn total_size<T>(records: Seq<T>, size: spec_fn(T) -> u64) -> int
    decreases records.len(),
{
    if records.len() == 0 {
        0
    } else {
        total_size(records.drop_last(), size) + size(records.last())
    }
}

/// Sizes add up to nothing negative.
pub proof fn lemma_total_size_is_no_debt<T>(records: Seq<T>, size: spec_fn(T) -> u64)
    ensures
        total_size(records, size) >= 0,
    decreases records.len(),
{
    if records.len() > 0 {
        lemma_total_size_is_no_debt(records.drop_last(), size);
    }
}

/// Without their first record the records are smaller by its size.
pub proof fn lemma_total_size_without_first<T>(records: Seq<T>, size: spec_fn(T) -> u64)
    requires
        records.len() > 0,
    ensures
        total_size(records, size) == size(records[0]) + total_size(records.drop_first(), size),
    decreases records.len(),
{
    if records.len() == 1 {
        assert(records.drop_last() =~= Seq::<T>::empty());
        assert(records.drop_first() =~= Seq::<T>::empty());
        assert(total_size(records.drop_last(), size) == 0);
    } else {
        lemma_total_size_without_first(records.drop_last(), size);
        assert(records.drop_first().drop_last() =~= records.drop_last().drop_first());
    }
}

} // verus!
