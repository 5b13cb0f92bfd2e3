//! The layout of a run in storage: one serialized record per line.
use crate::sortable::total_size;
use vstd::prelude::*;

verus! {

/// The byte that ends each record of a run: a line feed.
pub const TERMINATOR: u8 = 10;

/// A serialized record as it stands in a run: followed by the terminator.
pub open spec fn framed(encoded: Seq<u8>) -> Seq<u8> {
    encoded.push(TERMINATOR)
}

/// The serialized record of a line of a run: the line without the terminator
/// at its end, if it has one.
pub open spec fn unframed(line: Seq<u8>) -> Seq<u8> {
    if line.len() > 0 && line.last() == TERMINATOR {
        line.drop_last()
    } else {
        line
    }
}

/// The bytes of a run: its serialized records in order, each framed.
pub open spec fn run_bytes(encoded: Seq<Seq<u8>>) -> Seq<u8>
    decreases encoded.len(),
{
    if encoded.len() == 0 {
        Seq::empty()
    } else {
        run_bytes(encoded.drop_last()) + framed(encoded.last())
    }
}

/// The serialized records that `lines` holds.
pub open spec fn line_views(lines: Seq<Vec<u8>>) -> Seq<Seq<u8>> {
    lines.map_values(|line: Vec<u8>| line@)
}

/// Reading back a framed record gives the record.
pub proof fn lemma_unframed_framed(encoded: Seq<u8>)
    ensures
        unframed(framed(encoded)) == encoded,
        framed(encoded).len() == encoded.len() + 1,
{
    assert(framed(encoded).drop_last() =~= encoded);
}

/// Record `k` of a run starts where the records before it end, and takes one
/// byte more than its serialized form.
pub proof fn lemma_record_position(encoded: Seq<Seq<u8>>, k: int)
    requires
        0 <= k < encoded.len(),
    ensures
        run_bytes(encoded.take(k)).len() + encoded[k].len() + 1 == run_bytes(
            encoded.take(k + 1),
        ).len(),
        run_bytes(encoded.take(k + 1)).len() <= run_bytes(encoded).len(),
        run_bytes(encoded).subrange(
            run_bytes(encoded.take(k)).len() as int,
            run_bytes(encoded.take(k + 1)).len() as int,
        ) == framed(encoded[k]),
    decreases encoded.len(),
{
    let n = encoded.len() as int;
    if k == n - 1 {
        assert(encoded.take(k + 1) =~= encoded);
        assert(encoded.take(k) =~= encoded.drop_last());
        assert(run_bytes(encoded).subrange(
            run_bytes(encoded.take(k)).len() as int,
            run_bytes(encoded.take(k + 1)).len() as int,
        ) =~= framed(encoded[k]));
    } else {
        let front = encoded.drop_last();
        lemma_record_position(front, k);
        assert(front.take(k) =~= encoded.take(k));
        assert(front.take(k + 1) =~= encoded.take(k + 1));
        assert(run_bytes(encoded).subrange(
            run_bytes(encoded.take(k)).len() as int,
            run_bytes(encoded.take(k + 1)).len() as int,
        ) =~= run_bytes(front).subrange(
            run_bytes(encoded.take(k)).len() as int,
            run_bytes(encoded.take(k + 1)).len() as int,
        ));
    }
}

/// The bytes that a serialized record takes in a run: one more than it has.
pub open spec fn span_of(encoded: Seq<u8>) -> u64 {
    (encoded.len() + 1) as u64
}

/// A run is as long as its records take together, so each record starts at the
/// sum of the spans of the records before it.
pub proof fn lemma_run_length(encoded: Seq<Seq<u8>>)
    requires
        forall|k: int| 0 <= k < encoded.len() ==> (#[trigger] encoded[k]).len() < u64::MAX,
    ensures
        run_bytes(encoded).len() == total_size(encoded, |e: Seq<u8>| span_of(e)),
    decreases encoded.len(),
{
    if encoded.len() > 0 {
        assert(encoded.last() == encoded[encoded.len() - 1]);
        assert forall|k: int| 0 <= k < encoded.drop_last().len() implies (
        #[trigger] encoded.drop_last()[k]).len() < u64::MAX by {
            assert(encoded.drop_last()[k] == encoded[k]);
        }
        lemma_run_length(encoded.drop_last());
    }
}

/// Frames one serialized record.
pub fn frame(encoded: Vec<u8>) -> (line: Vec<u8>)
    ensures
        line@ == framed(encoded@),
{
    let mut line = encoded;
    line.push(TERMINATOR);
    line
}

/// Takes the terminator off a line that was read from a run.
pub fn unframe(line: Vec<u8>) -> (encoded: Vec<u8>)
    ensures
        encoded@ == unframed(line@),
{
    let mut encoded = line;
    let n = encoded.len();
    if n > 0 && encoded[n - 1] == TERMINATOR {
        encoded.pop();
        assert(encoded@ =~= line@.drop_last());
    }
    encoded
}

/// The bytes to persist for a run whose records, in sorted order, serialize to
/// `encoded`.
pub fn write_chunk(encoded: &Vec<Vec<u8>>) -> (bytes: Vec<u8>)
    ensures
        bytes@ == run_bytes(line_views(encoded@)),
{
    let ghost lines = line_views(encoded@);
    let mut bytes: Vec<u8> = Vec::new();
    let mut done: usize = 0;
    while done < encoded.len()
        invariant
            done <= encoded.len(),
            lines == line_views(encoded@),
            bytes@ == run_bytes(lines.take(done as int)),
        decreases encoded.len() - done,
    {
        bytes.extend_from_slice(encoded[done].as_slice());
        bytes.push(TERMINATOR);
        proof {
            let upto = lines.take(done + 1);
            assert(upto.drop_last() =~= lines.take(done as int));
            assert(upto.last() == encoded@[done as int]@);
        }
        done = done + 1;
    }
    assert(lines.take(done as int) =~= lines);
    bytes
}

} // verus!
