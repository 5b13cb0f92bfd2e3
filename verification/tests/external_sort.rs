use std::cmp::Ordering;
use std::collections::BTreeMap;

use external_sort::framing::{frame, unframe, write_chunk, TERMINATOR};
use external_sort::run_sort::sort_run;
use external_sort::{
    ExtSortedIterator, ExternalSorter, ExternallySortable, Fill, ReadEvent, Run, RunBuilder,
    SortError, Step,
};
use serde::de::{DeserializeOwned, Error};
use serde::ser::SerializeStruct;
use serde::{Deserialize, Deserializer, Serialize, Serializer};

#[derive(Clone, Debug, PartialEq, Eq, PartialOrd, Ord)]
struct Num {
    the_num: u8,
}

impl Num {
    fn new(num: u8) -> Num {
        Num { the_num: num }
    }
}

impl Serialize for Num {
    fn serialize<S: Serializer>(&self, serializer: S) -> Result<S::Ok, S::Error> {
        let mut fields = serializer.serialize_struct("Num", 1)?;
        fields.serialize_field("the_num", &self.the_num)?;
        fields.end()
    }
}

impl<'de> Deserialize<'de> for Num {
    fn deserialize<D: Deserializer<'de>>(deserializer: D) -> Result<Num, D::Error> {
        let fields = BTreeMap::<String, u8>::deserialize(deserializer)?;
        match fields.get("the_num") {
            Some(num) => Ok(Num::new(*num)),
            None => Err(D::Error::missing_field("the_num")),
        }
    }
}

impl ExternallySortable for Num {
    fn get_size(&self) -> u64 {
        1
    }
}

/// A record with a key and a tag, ordered by the key alone in the tests that
/// watch the order of equal keys.
#[derive(Clone, Debug, PartialEq, Eq, PartialOrd, Ord)]
struct Tagged {
    key: u8,
    tag: u32,
    size: u64,
}

impl Tagged {
    fn new(key: u8, tag: u32, size: u64) -> Tagged {
        Tagged { key, tag, size }
    }
}

impl Serialize for Tagged {
    fn serialize<S: Serializer>(&self, serializer: S) -> Result<S::Ok, S::Error> {
        (self.key, self.tag, self.size).serialize(serializer)
    }
}

impl<'de> Deserialize<'de> for Tagged {
    fn deserialize<D: Deserializer<'de>>(deserializer: D) -> Result<Tagged, D::Error> {
        let (key, tag, size) = <(u8, u32, u64)>::deserialize(deserializer)?;
        Ok(Tagged::new(key, tag, size))
    }
}

impl ExternallySortable for Tagged {
    fn get_size(&self) -> u64 {
        self.size
    }
}

fn by_key(a: &Tagged, b: &Tagged) -> Ordering {
    a.key.cmp(&b.key)
}

/// A workspace in memory: the bytes of each run, by the number of the run.
struct Workspace {
    runs: Vec<Vec<u8>>,
    lost: bool,
    reads: usize,
}

impl Workspace {
    fn new() -> Workspace {
        Workspace { runs: Vec::new(), lost: false, reads: 0 }
    }

    fn persist<T: Serialize>(&mut self, run: Run<T>) -> Result<(), SortError> {
        assert_eq!(run.id, u64::try_from(self.runs.len()).unwrap());
        let mut encoded = Vec::new();
        for record in &run.records {
            match serde_json::to_vec(record) {
                Ok(bytes) => encoded.push(bytes),
                Err(e) => return Err(SortError::Encoding(e.to_string())),
            }
        }
        self.runs.push(write_chunk(&encoded));
        Ok(())
    }

    fn read<T: DeserializeOwned>(&mut self, run: u64, offset: u64) -> ReadEvent<T> {
        self.reads += 1;
        if self.lost {
            return ReadEvent::Failed(SortError::StorageIo(String::from("the workspace is gone")));
        }
        let data = &self.runs[usize::try_from(run).unwrap()];
        let from = usize::try_from(offset).unwrap();
        if from >= data.len() {
            return ReadEvent::End;
        }
        let rest = &data[from..];
        let end = match rest.iter().position(|b| *b == TERMINATOR) {
            Some(at) => at + 1,
            None => rest.len(),
        };
        let line = rest[..end].to_vec();
        let bytes = u64::try_from(line.len()).unwrap();
        match serde_json::from_slice(&unframe(line)) {
            Ok(record) => ReadEvent::Record { bytes, record },
            Err(e) => ReadEvent::Failed(SortError::Encoding(e.to_string())),
        }
    }
}

/// The sorted sequence: the engine and the workspace that it reads.
struct Sorted<T, F> {
    engine: ExtSortedIterator<T, F>,
    workspace: Workspace,
}

impl<T, F> Iterator for Sorted<T, F>
where
    T: ExternallySortable + DeserializeOwned,
    F: Fn(&T, &T) -> Ordering,
{
    type Item = Result<T, SortError>;

    fn next(&mut self) -> Option<Result<T, SortError>> {
        loop {
            match self.engine.next() {
                Step::Read { run, offset } => {
                    let event = self.workspace.read(run, offset);
                    assert!(self.engine.feed(event));
                }
                Step::Yield(item) => return Some(item),
                Step::Done => return None,
            }
        }
    }
}

/// Runs the first phase of a sort over a workspace in memory.
fn build<T, F, I>(mut builder: RunBuilder<T, F>, unsorted: I) -> Result<Sorted<T, F>, SortError>
where
    T: ExternallySortable + Serialize + DeserializeOwned,
    F: Fn(&T, &T) -> Ordering,
    I: Iterator<Item = T>,
{
    let mut workspace = Workspace::new();
    for record in unsorted {
        assert!(builder.runs() < u64::MAX);
        if let Some(run) = builder.accept(record) {
            workspace.persist(run)?;
        }
    }
    let (last, mut engine) = builder.finish();
    if let Some(run) = last {
        workspace.persist(run)?;
    }
    loop {
        match engine.fill() {
            Fill::Read { run, offset } => {
                let event = workspace.read(run, offset);
                assert!(engine.feed(event));
            }
            Fill::Ready => break,
            Fill::Failed(e) => return Err(e),
        }
    }
    Ok(Sorted { engine, workspace })
}

fn sort_all<I: Iterator<Item = Num>>(
    sorter: &ExternalSorter<Num>,
    unsorted: I,
) -> Result<Sorted<Num, impl Fn(&Num, &Num) -> Ordering>, SortError> {
    build(sorter.sort(), unsorted)
}

fn five() -> Vec<Num> {
    vec![Num::new(5), Num::new(2), Num::new(1), Num::new(3), Num::new(4)]
}

fn ascending() -> Vec<Num> {
    vec![Num::new(1), Num::new(2), Num::new(3), Num::new(4), Num::new(5)]
}

/// A source of bytes that repeats from run to run.
fn scrambled(count: usize) -> Vec<Num> {
    let mut state: u32 = 12345;
    let mut out = Vec::new();
    for _ in 0..count {
        state = state.wrapping_mul(1103515245).wrapping_add(12345);
        out.push(Num::new(state.to_be_bytes()[1]));
    }
    out
}

#[test]
fn sort() {
    let unsorted = five();
    let sorted = ascending();
    let iter = sort_all(&ExternalSorter::new(2, None), unsorted.into_iter()).unwrap();
    let mut seen = 0;
    for (idx, i) in iter.enumerate() {
        assert_eq!(i.unwrap().the_num, sorted[idx].the_num);
        seen += 1;
    }
    assert_eq!(seen, 5);
}

#[test]
fn reverse() {
    let unsorted = five();
    let sorted = vec![Num::new(5), Num::new(4), Num::new(3), Num::new(2), Num::new(1)];
    let sorter: ExternalSorter<Num> = ExternalSorter::new(16, None);
    let iter = build(sorter.sort_by(|a: &Num, b: &Num| b.cmp(a)), unsorted.into_iter()).unwrap();
    let mut seen = 0;
    for (idx, i) in iter.enumerate() {
        assert_eq!(i.unwrap().the_num, sorted[idx].the_num);
        seen += 1;
    }
    assert_eq!(seen, 5);
}

#[test]
fn zero_buff() {
    let unsorted = five();
    let sorted = ascending();
    let iter = sort_all(&ExternalSorter::new(0, None), unsorted.into_iter()).unwrap();
    assert_eq!(iter.workspace.runs.len(), 5);
    let mut seen = 0;
    for (idx, i) in iter.enumerate() {
        assert_eq!(i.unwrap().the_num, sorted[idx].the_num);
        seen += 1;
    }
    assert_eq!(seen, 5);
}

#[test]
fn large_buff() {
    let unsorted = five();
    let sorted = ascending();
    let iter = sort_all(&ExternalSorter::new(999999999, None), unsorted.into_iter()).unwrap();
    assert_eq!(iter.workspace.runs.len(), 1);
    let mut seen = 0;
    for (idx, i) in iter.enumerate() {
        assert_eq!(i.unwrap().the_num, sorted[idx].the_num);
        seen += 1;
    }
    assert_eq!(seen, 5);
}

#[test]
fn reuse() {
    let unsorted = five();
    let sorted = ascending();
    let sorter = ExternalSorter::new(2, None);
    let iter = sort_all(&sorter, unsorted.clone().into_iter()).unwrap();
    for (idx, i) in iter.enumerate() {
        assert_eq!(i.unwrap().the_num, sorted[idx].the_num);
    }
    let iter2 = sort_all(&sorter, unsorted.into_iter()).unwrap();
    let mut seen = 0;
    for (idx, i) in iter2.enumerate() {
        assert_eq!(i.unwrap().the_num, sorted[idx].the_num);
        seen += 1;
    }
    assert_eq!(seen, 5);
}

#[test]
fn large() {
    let mut unsorted = Vec::new();
    for _ in 0..10_000 {
        unsorted.push(Num::new(rand::random()));
    }
    let iter = sort_all(&ExternalSorter::new(100, None), unsorted.into_iter()).unwrap();
    assert_eq!(iter.workspace.runs.len(), 100);
    let mut last = 0;
    let mut seen = 0;
    for i in iter {
        let n = i.unwrap().the_num;
        assert!(n >= last);
        last = n;
        seen += 1;
    }
    assert_eq!(seen, 10_000);
}

#[test]
fn handle_fail() {
    let mut unsorted = Vec::new();
    for _ in 0..10_000 {
        unsorted.push(Num::new(rand::random()));
    }
    let mut iter = sort_all(&ExternalSorter::new(100, None), unsorted.into_iter()).unwrap();
    iter.workspace.lost = true;
    let mut fail = false;
    let mut after_failure = 0;
    for i in iter {
        if fail {
            after_failure += 1;
        }
        if i.is_err() {
            fail = true;
        }
    }
    assert!(fail);
    assert_eq!(after_failure, 0);
}

#[test]
fn output_is_a_sorted_permutation() {
    let unsorted = scrambled(1000);
    let mut expected: Vec<u8> = unsorted.iter().map(|n| n.the_num).collect();
    expected.sort();
    for budget in [0u64, 1, 7, 100, 5000] {
        let iter = sort_all(&ExternalSorter::new(budget, None), unsorted.clone().into_iter())
            .unwrap();
        let got: Vec<u8> = iter.map(|i| i.unwrap().the_num).collect();
        assert_eq!(got, expected);
    }
}

#[test]
fn budgets_do_not_change_the_output() {
    for budget in [0u64, 2, 16, 999_999_999] {
        let iter = sort_all(&ExternalSorter::new(budget, None), five().into_iter()).unwrap();
        let got: Vec<Num> = iter.map(|i| i.unwrap()).collect();
        assert_eq!(got, ascending());
    }
}

#[test]
fn same_input_gives_same_output() {
    let mut unsorted = Vec::new();
    let mut tag = 0;
    for n in scrambled(300) {
        unsorted.push(Tagged::new(n.the_num % 8, tag, 1));
        tag += 1;
    }
    let sorter: ExternalSorter<Tagged> = ExternalSorter::new(10, None);
    let first: Vec<Tagged> = build(sorter.sort_by(by_key), unsorted.clone().into_iter())
        .unwrap()
        .map(|i| i.unwrap())
        .collect();
    let second: Vec<Tagged> = build(sorter.sort_by(by_key), unsorted.into_iter())
        .unwrap()
        .map(|i| i.unwrap())
        .collect();
    assert_eq!(first.len(), 300);
    assert_eq!(first, second);
}

#[test]
fn empty_input_is_exhausted_at_once() {
    let sorter: ExternalSorter<Num> = ExternalSorter::new(16, None);
    let mut iter = sort_all(&sorter, Vec::new().into_iter()).unwrap();
    assert_eq!(iter.workspace.runs.len(), 0);
    assert!(iter.next().is_none());
    assert!(iter.next().is_none());
    assert_eq!(iter.workspace.reads, 0);
}

#[test]
fn sorter_keeps_its_configuration() {
    let root = std::path::PathBuf::from("somewhere");
    let sorter: ExternalSorter<Num> = ExternalSorter::new(42, Some(root.clone()));
    assert_eq!(sorter.buffer_bytes(), 42);
    assert_eq!(sorter.tmp_dir(), &Some(root));
    let plain: ExternalSorter<Num> = ExternalSorter::new(0, None);
    assert_eq!(plain.buffer_bytes(), 0);
    assert_eq!(plain.tmp_dir(), &None);
}

#[test]
fn runs_are_cut_where_the_sizes_reach_the_budget() {
    let sorter: ExternalSorter<Tagged> = ExternalSorter::new(10, None);
    let mut builder = sorter.sort_by(by_key);
    assert_eq!(builder.runs(), 0);
    assert!(!builder.has_pending());
    assert!(builder.accept(Tagged::new(9, 0, 4)).is_none());
    assert!(builder.has_pending());
    assert!(builder.accept(Tagged::new(3, 1, 5)).is_none());
    let first = builder.accept(Tagged::new(7, 2, 1)).unwrap();
    assert_eq!(first.id, 0);
    assert_eq!(
        first.records,
        vec![Tagged::new(3, 1, 5), Tagged::new(7, 2, 1), Tagged::new(9, 0, 4)]
    );
    assert_eq!(builder.runs(), 1);
    assert!(!builder.has_pending());
    let second = builder.accept(Tagged::new(1, 3, 11)).unwrap();
    assert_eq!(second.id, 1);
    assert_eq!(second.records, vec![Tagged::new(1, 3, 11)]);
    assert!(builder.accept(Tagged::new(2, 4, 9)).is_none());
    assert_eq!(builder.runs(), 2);
    let (last, _engine) = builder.finish();
    let last = last.unwrap();
    assert_eq!(last.id, 2);
    assert_eq!(last.records, vec![Tagged::new(2, 4, 9)]);
}

#[test]
fn sizes_beyond_the_counter_cut_a_run() {
    let sorter: ExternalSorter<Tagged> = ExternalSorter::new(u64::MAX, None);
    let mut builder = sorter.sort_by(by_key);
    assert!(builder.accept(Tagged::new(1, 0, u64::MAX - 1)).is_none());
    let run = builder.accept(Tagged::new(0, 1, 5)).unwrap();
    assert_eq!(run.records, vec![Tagged::new(0, 1, 5), Tagged::new(1, 0, u64::MAX - 1)]);
    let (last, _engine) = builder.finish();
    assert!(last.is_none());
}

#[test]
fn equal_keys_keep_their_order_within_a_run() {
    let run = vec![
        Tagged::new(2, 0, 1),
        Tagged::new(1, 1, 1),
        Tagged::new(2, 2, 1),
        Tagged::new(1, 3, 1),
        Tagged::new(2, 4, 1),
        Tagged::new(0, 5, 1),
        Tagged::new(1, 6, 1),
    ];
    let sorted = sort_run(run, &by_key);
    let tags: Vec<(u8, u32)> = sorted.iter().map(|t| (t.key, t.tag)).collect();
    assert_eq!(tags, vec![(0, 5), (1, 1), (1, 3), (1, 6), (2, 0), (2, 2), (2, 4)]);
}

#[test]
fn equal_heads_come_from_the_lowest_run() {
    let sorter: ExternalSorter<Tagged> = ExternalSorter::new(0, None);
    let unsorted = vec![
        Tagged::new(1, 0, 1),
        Tagged::new(0, 1, 1),
        Tagged::new(1, 2, 1),
        Tagged::new(0, 3, 1),
    ];
    let iter = build(sorter.sort_by(by_key), unsorted.into_iter()).unwrap();
    assert_eq!(iter.workspace.runs.len(), 4);
    let tags: Vec<(u8, u32)> = iter.map(|i| i.unwrap()).map(|t| (t.key, t.tag)).collect();
    assert_eq!(tags, vec![(0, 1), (0, 3), (1, 0), (1, 2)]);
}

#[test]
fn each_run_gets_an_even_share_of_the_budget() {
    // Three runs of four records under a budget of 6: a refill stops once it
    // has buffered more than 2, that is after three records.
    let sorter: ExternalSorter<Tagged> = ExternalSorter::new(6, None);
    let mut builder = sorter.sort_by(by_key);
    let mut workspace = Workspace::new();
    for tag in 0..6u32 {
        let size = if tag % 2 == 1 { 5 } else { 1 };
        if let Some(run) = builder.accept(Tagged::new(0, tag, size)) {
            workspace.persist(run).unwrap();
        }
    }
    let (last, _) = builder.finish();
    assert!(last.is_none());
    assert_eq!(workspace.runs.len(), 3);

    let mut engine = ExtSortedIterator::new(3, 6, by_key);
    let line = u64::try_from(serde_json::to_vec(&Tagged::new(0, 0, 1)).unwrap().len()).unwrap() + 1;
    assert!(matches!(engine.fill(), Fill::Read { run: 0, offset: 0 }));
    assert!(engine.feed(ReadEvent::Record { bytes: line, record: Tagged::new(0, 0, 1) }));
    match engine.fill() {
        Fill::Read { run, offset } => {
            assert_eq!(run, 0);
            assert_eq!(offset, line);
        }
        _ => panic!("the refill of run 0 goes on"),
    }
    assert!(engine.feed(ReadEvent::Record { bytes: line, record: Tagged::new(0, 1, 1) }));
    match engine.fill() {
        Fill::Read { run, offset } => {
            assert_eq!(run, 0);
            assert_eq!(offset, 2 * line);
        }
        _ => panic!("the refill of run 0 goes on"),
    }
    assert!(engine.feed(ReadEvent::Record { bytes: line, record: Tagged::new(0, 2, 1) }));
    assert!(matches!(engine.fill(), Fill::Read { run: 1, offset: 0 }));
    assert!(engine.feed(ReadEvent::Record { bytes: 7, record: Tagged::new(0, 3, 3) }));
    assert!(matches!(engine.fill(), Fill::Read { run: 2, offset: 0 }));
    assert!(engine.feed(ReadEvent::End));
    assert!(matches!(engine.fill(), Fill::Ready));
    assert!(!engine.feed(ReadEvent::End));
}

#[test]
fn a_round_asks_every_empty_run_again() {
    let mut engine: ExtSortedIterator<Tagged, _> = ExtSortedIterator::new(2, 0, by_key);
    assert!(matches!(engine.next(), Step::Read { run: 0, offset: 0 }));
    assert!(matches!(engine.next(), Step::Read { run: 0, offset: 0 }));
    assert!(engine.feed(ReadEvent::End));
    assert!(matches!(engine.next(), Step::Read { run: 1, offset: 0 }));
    assert!(engine.feed(ReadEvent::Record { bytes: 9, record: Tagged::new(4, 0, 1) }));
    match engine.next() {
        Step::Yield(Ok(record)) => assert_eq!(record, Tagged::new(4, 0, 1)),
        _ => panic!("the only buffered record comes out"),
    }
    assert!(matches!(engine.next(), Step::Read { run: 0, offset: 0 }));
    assert!(engine.feed(ReadEvent::End));
    assert!(matches!(engine.next(), Step::Read { run: 1, offset: 9 }));
    assert!(engine.feed(ReadEvent::End));
    assert!(matches!(engine.next(), Step::Done));
    assert!(matches!(engine.next(), Step::Read { run: 0, offset: 0 }));
}

#[test]
fn a_failure_is_produced_once_and_ends_the_sequence() {
    let mut engine: ExtSortedIterator<Tagged, _> = ExtSortedIterator::new(1, 4, by_key);
    assert!(matches!(engine.next(), Step::Read { run: 0, offset: 0 }));
    assert!(engine.feed(ReadEvent::Failed(SortError::Encoding(String::from("not a record")))));
    match engine.next() {
        Step::Yield(Err(e)) => {
            assert_eq!(e, SortError::Encoding(String::from("not a record")));
            assert_eq!(e.message(), "not a record");
        }
        _ => panic!("the failure is produced"),
    }
    assert!(matches!(engine.next(), Step::Done));
    assert!(matches!(engine.next(), Step::Done));
    assert!(!engine.feed(ReadEvent::End));
    assert!(matches!(engine.fill(), Fill::Ready));
}

#[test]
fn a_failure_during_the_first_fill_stops_the_sort() {
    let mut engine: ExtSortedIterator<Tagged, _> = ExtSortedIterator::new(2, 4, by_key);
    assert!(matches!(engine.fill(), Fill::Read { run: 0, offset: 0 }));
    assert!(engine.feed(ReadEvent::Failed(SortError::StorageIo(String::from("no such run")))));
    match engine.fill() {
        Fill::Failed(e) => assert_eq!(e, SortError::StorageIo(String::from("no such run"))),
        _ => panic!("the failure is reported"),
    }
    assert!(matches!(engine.next(), Step::Done));
}

#[test]
fn error_kinds_carry_their_message() {
    let storage = SortError::StorageIo(String::from("a"));
    let encoding = SortError::Encoding(String::from("b"));
    let workspace = SortError::WorkspaceCreation(String::from("c"));
    assert_eq!(storage.message(), "a");
    assert_eq!(encoding.message(), "b");
    assert_eq!(workspace.message(), "c");
    assert_ne!(storage, SortError::Encoding(String::from("a")));
}

#[test]
fn a_line_that_is_no_record_fails_the_sequence() {
    let sorter: ExternalSorter<Num> = ExternalSorter::new(1, None);
    let mut iter = sort_all(&sorter, five().into_iter()).unwrap();
    // Run 1 held the record 2; it is read again once its buffer is empty.
    iter.workspace.runs[1] = b"{\"the_num\":2}\nnonsense\n".to_vec();
    let mut items = Vec::new();
    for item in &mut iter {
        items.push(item);
    }
    assert!(matches!(items.last(), Some(Err(SortError::Encoding(_)))));
    assert_eq!(items.iter().filter(|i| i.is_err()).count(), 1);
    assert!(iter.next().is_none());
}

#[test]
fn framing_adds_and_removes_the_terminator() {
    assert_eq!(TERMINATOR, b'\n');
    assert_eq!(frame(b"{\"the_num\":5}".to_vec()), b"{\"the_num\":5}\n".to_vec());
    assert_eq!(frame(Vec::new()), b"\n".to_vec());
    assert_eq!(unframe(b"{\"the_num\":5}\n".to_vec()), b"{\"the_num\":5}".to_vec());
    assert_eq!(unframe(b"no terminator".to_vec()), b"no terminator".to_vec());
    assert_eq!(unframe(b"two\n\n".to_vec()), b"two\n".to_vec());
    assert_eq!(unframe(Vec::new()), Vec::<u8>::new());
}

#[test]
fn a_run_is_its_records_line_by_line() {
    let encoded = vec![b"1".to_vec(), b"22".to_vec(), Vec::new(), b"333".to_vec()];
    assert_eq!(write_chunk(&encoded), b"1\n22\n\n333\n".to_vec());
    assert_eq!(write_chunk(&Vec::new()), Vec::<u8>::new());
}

#[test]
fn runs_are_persisted_sorted_and_line_by_line() {
    let sorter: ExternalSorter<Num> = ExternalSorter::new(2, None);
    let iter = sort_all(&sorter, five().into_iter()).unwrap();
    assert_eq!(iter.workspace.runs.len(), 3);
    assert_eq!(iter.workspace.runs[0], b"{\"the_num\":2}\n{\"the_num\":5}\n".to_vec());
    assert_eq!(iter.workspace.runs[1], b"{\"the_num\":1}\n{\"the_num\":3}\n".to_vec());
    assert_eq!(iter.workspace.runs[2], b"{\"the_num\":4}\n".to_vec());
}
