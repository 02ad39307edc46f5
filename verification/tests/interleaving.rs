//! Tests of the reader and writer protocols, step by step.

use cbuf::protocol::FetchCheckpoint as FC;
use cbuf::protocol::ReadProtocolStep as RPS;
use cbuf::protocol::WriteProtocolStep as WPS;
use cbuf::protocol::{AddItemSeq, CBufItem, FetchNextItemSeq, FetchSeq, NUM_READ_TRIES};
use cbuf::CBufIndex;
use cbuf::CBufReader;
use cbuf::InvalidIndexError;
use cbuf::ReadResult;
use cbuf::ReadResult as RR;
use std::fmt::Debug;

/// The memory that a writer and a reader share.
#[derive(Clone)]
struct Shared<T: CBufItem, const SIZE: usize> {
    buf: [T; SIZE],
    next: CBufIndex<SIZE>,
}

/// A writer that adds some items, one step at a time.
#[derive(Clone)]
struct Writer<T: CBufItem, const SIZE: usize> {
    next_local: CBufIndex<SIZE>,
    items: Vec<T>,
    seq: Option<AddItemSeq<T, SIZE>>,
}

impl<T: CBufItem, const SIZE: usize> Writer<T, SIZE> {
    fn new(next: usize, items: &[T]) -> Self {
        let mut items = items.to_vec();
        items.reverse();
        Writer { next_local: CBufIndex::new(next), items, seq: None }
    }

    /// Takes the next step, and says which it was, if there is one.
    fn step(&mut self, mem: &mut Shared<T, SIZE>) -> Option<WPS> {
        if self.seq.is_none() {
            let item = self.items.pop()?;
            self.seq = Some(AddItemSeq::new(self.next_local, item));
        }
        let seq = self.seq.as_mut().unwrap();
        let step = seq.checkpoint().unwrap();
        match step {
            WPS::PreWrite => {}
            WPS::BufferWrite => mem.buf[seq.slot()] = seq.item,
            WPS::IndexPostUpdate => mem.next = seq.next_next(),
        }
        seq.step_done();
        if seq.checkpoint().is_none() {
            self.next_local = seq.next_next();
            self.seq = None;
        }
        Some(step)
    }
}

/// An operation of a reader that is performed one step at a time.
trait ReadOp<T: CBufItem, const SIZE: usize>: Clone {
    type Ret: Clone + Copy + Debug + PartialEq;

    fn checkpoint(&self) -> FC<Self::Ret>;
    fn perform(&mut self, step: RPS, mem: &Shared<T, SIZE>);
}

impl<T: CBufItem + Debug + PartialEq, const SIZE: usize> ReadOp<T, SIZE>
    for FetchNextItemSeq<T, SIZE>
{
    type Ret = ReadResult<T>;

    fn checkpoint(&self) -> FC<Self::Ret> {
        FetchNextItemSeq::checkpoint(self)
    }

    fn perform(&mut self, step: RPS, mem: &Shared<T, SIZE>) {
        match step {
            RPS::IndexCheckPre => self.index_check_pre(mem.next),
            RPS::BufferRead => self.buffer_read(mem.buf[self.slot()]),
            RPS::IndexCheckPost => {
                self.index_check_post(mem.next);
            }
        }
    }
}

impl<T: CBufItem + Debug + PartialEq, const SIZE: usize> ReadOp<T, SIZE> for FetchSeq<T, SIZE> {
    type Ret = Result<T, InvalidIndexError>;

    fn checkpoint(&self) -> FC<Self::Ret> {
        FetchSeq::checkpoint(self)
    }

    fn perform(&mut self, step: RPS, mem: &Shared<T, SIZE>) {
        match step {
            RPS::IndexCheckPre => self.index_check_pre(mem.next),
            RPS::BufferRead => self.buffer_read(mem.buf[self.slot()]),
            RPS::IndexCheckPost => self.index_check_post(mem.next),
        }
    }
}

fn step_reader<T: CBufItem, O: ReadOp<T, SIZE>, const SIZE: usize>(
    op: &mut O,
    mem: &Shared<T, SIZE>,
) {
    match op.checkpoint() {
        FC::Step(step) => op.perform(step, mem),
        FC::ReturnVal(r) => panic!("unexpected return of {:?}", r),
    }
}

fn step_writer<T: CBufItem, const SIZE: usize>(
    writer: &mut Writer<T, SIZE>,
    mem: &mut Shared<T, SIZE>,
) {
    assert!(writer.step(mem).is_some());
}

fn expect_reader_ret<T: CBufItem, O: ReadOp<T, SIZE>, const SIZE: usize>(op: &O, ret: O::Ret) {
    assert_eq!(op.checkpoint(), FC::ReturnVal(ret));
}

#[test]
fn very_simple_multithreaded() {
    let mut mem: Shared<(u8, u16), 4> = Shared { buf: [(0, 0); 4], next: CBufIndex::new(0) };
    let mut writer = Writer::new(0, &[(1, 1)]);
    let mut reader = FetchNextItemSeq::new(CBufIndex::new(0), false);

    for _ in 0..3 {
        step_reader(&mut reader, &mem);
    }
    expect_reader_ret(&reader, RR::NoNewItems);

    for _ in 0..3 {
        step_writer(&mut writer, &mut mem);
    }
    let mut reader = FetchNextItemSeq::new(reader.next_local, false);
    for _ in 0..3 {
        step_reader(&mut reader, &mem);
    }
    expect_reader_ret(&reader, RR::Success((1, 1)));
}

#[test]
fn simple_interleaved_read_and_write() {
    let mut mem: Shared<i16, 16> = Shared {
        buf: [-1, -2, -3, -4, -5, -6, -7, -8, -9, -10, -11, -12, -13, -14, -15, -16],
        next: CBufIndex::new(0x21),
    };
    let mut writer = Writer::new(0x21, &[42, 43, 44, 45]);
    let mut reader = FetchNextItemSeq::new(CBufIndex::new(0x12), false);

    step_reader(&mut reader, &mem);
    for _ in 0..3 {
        step_writer(&mut writer, &mut mem);
    }
    step_reader(&mut reader, &mem);
    step_reader(&mut reader, &mem);
    for _ in 0..3 {
        step_reader(&mut reader, &mem);
    }
    expect_reader_ret(&reader, RR::Skipped(-4));

    let mut reader = FetchNextItemSeq::new(reader.next_local, true);
    step_reader(&mut reader, &mem);
    for _ in 0..(2 * 3) {
        step_writer(&mut writer, &mut mem);
    }
    step_reader(&mut reader, &mem);
    step_reader(&mut reader, &mem);
    for _ in 0..3 {
        step_reader(&mut reader, &mem);
    }
    expect_reader_ret(&reader, RR::Skipped(44));

    let mut reader = FetchNextItemSeq::new(reader.next_local, false);
    step_reader(&mut reader, &mem);
    for _ in 0..3 {
        step_writer(&mut writer, &mut mem);
    }
    for _ in 0..2 {
        step_reader(&mut reader, &mem);
    }
    for _ in 0..3 {
        step_reader(&mut reader, &mem);
    }
    expect_reader_ret(&reader, RR::Success(45));
}

#[test]
fn get_to_spinfail() {
    assert_eq!(CBufReader::<(), 4096>::NUM_READ_TRIES, NUM_READ_TRIES);

    let mut mem: Shared<(), 4096> = Shared { buf: [(); 4096], next: CBufIndex::new(0x2005) };
    let mut writer = Writer::new(0x2005, &[(); NUM_READ_TRIES as usize]);
    let mut reader = FetchNextItemSeq::new(CBufIndex::new(0x1006), false);

    for _ in 0..NUM_READ_TRIES {
        step_reader(&mut reader, &mem);

        for _ in 0..3 {
            step_writer(&mut writer, &mut mem);
        }

        step_reader(&mut reader, &mem);
        step_reader(&mut reader, &mem);
    }
    expect_reader_ret(&reader, RR::SpinFail);
}

#[derive(Debug, PartialEq, Eq, Clone, Copy)]
enum TraceStep<T> {
    Reader(FC<T>),
    Writer(WPS),
}

#[derive(Clone)]
struct RunningState<T: CBufItem, O: ReadOp<T, SIZE>, const SIZE: usize> {
    mem: Shared<T, SIZE>,
    writer: Writer<T, SIZE>,
    reader: O,
    returned: bool,
    trace: Vec<TraceStep<O::Ret>>,
}

impl<T: CBufItem, O: ReadOp<T, SIZE>, const SIZE: usize> RunningState<T, O, SIZE> {
    fn try_writer(&mut self) -> bool {
        match self.writer.step(&mut self.mem) {
            Some(step) => {
                self.trace.push(TraceStep::Writer(step));
                true
            }
            None => false,
        }
    }

    fn try_reader(&mut self) -> bool {
        if self.returned {
            return false;
        }
        let checkpoint = self.reader.checkpoint();
        match checkpoint {
            FC::Step(step) => self.reader.perform(step, &self.mem),
            FC::ReturnVal(_) => self.returned = true,
        }
        self.trace.push(TraceStep::Reader(checkpoint));
        true
    }
}

/// Runs `action` on the trace of every way in which the steps of the reader and of
/// the writer can follow one another.
fn iterate_over_event_sequences<T, O, A, const SIZE: usize>(
    state: RunningState<T, O, SIZE>,
    action: &mut A,
) where
    T: CBufItem,
    O: ReadOp<T, SIZE>,
    A: FnMut(&[TraceStep<O::Ret>]),
{
    // Try another writer step.
    let mut after_writer = state.clone();
    if after_writer.try_writer() {
        iterate_over_event_sequences(after_writer, action);
    } else {
        // The writer has finished; run the reader to completion.
        while after_writer.try_reader() {}
        action(&after_writer.trace);
        return;
    }

    // Try another reader step. If the reader has finished, the rest of this sequence
    // has been covered above.
    let mut after_reader = state;
    if after_reader.try_reader() {
        iterate_over_event_sequences(after_reader, action);
    }
}

// named after the unary iota function in APL
fn iota<const SIZE: usize>() -> [u32; SIZE] {
    let mut x = [0u32; SIZE];
    for (i, item) in x.iter_mut().enumerate() {
        *item = i as u32;
    }
    x
}

fn run_next<A>(next: usize, initial_read_next: usize, fast_forward: bool, action: &mut A)
where
    A: FnMut(&[TraceStep<ReadResult<u32>>]),
{
    let state = RunningState {
        mem: Shared { buf: iota::<16>(), next: CBufIndex::new(next) },
        writer: Writer::new(next, &[42]),
        reader: FetchNextItemSeq::new(CBufIndex::new(initial_read_next), fast_forward),
        returned: false,
        trace: Vec::new(),
    };
    iterate_over_event_sequences(state, action);
}

fn run_fetch<A>(next: usize, index: usize, action: &mut A)
where
    A: FnMut(&[TraceStep<Result<u32, InvalidIndexError>>]),
{
    let state = RunningState {
        mem: Shared { buf: iota::<16>(), next: CBufIndex::new(next) },
        writer: Writer::new(next, &[42]),
        reader: FetchSeq::new(CBufIndex::new(index)),
        returned: false,
        trace: Vec::new(),
    };
    iterate_over_event_sequences(state, action);
}

#[test]
fn mini_model_example() {
    let mut i = 0usize;
    run_next(0x14, 0x13, false, &mut |trace| {
        i += 1;
        assert!(trace.len() > 0);
    });
    assert!(i > 1);
}

/// A test case with one write and one read where neither should interfere with each other.
#[test]
fn mini_model_no_interference_1w1r() {
    run_next(0x14, 0x11, false, &mut |trace| {
        assert!(trace.len() > 0);

        assert_eq!(
            trace.iter().filter(|t| matches!(t, TraceStep::Reader(FC::ReturnVal(_)))).count(),
            1
        );

        for t in trace {
            if let TraceStep::Reader(FC::ReturnVal(val)) = *t {
                assert_eq!(val, ReadResult::Success(1));
            }
        }
    });
}

fn prev_with<T: Copy, F: Fn(&T) -> bool>(trace: &[T], index: usize, predicate: F) -> Option<T> {
    let mut i = index;
    while i > 0 {
        i -= 1;
        if predicate(&trace[i]) {
            return Some(trace[i]);
        }
    }
    None
}

fn next_with<T: Copy, F: Fn(&T) -> bool>(trace: &[T], index: usize, predicate: F) -> Option<T> {
    for t in &trace[(index + 1)..] {
        if predicate(t) {
            return Some(*t);
        }
    }
    None
}

/// What holds of every trace of one write that clobbers the item that is read.
fn check_interference(trace: &[TraceStep<ReadResult<u32>>], skipped: u32) {
    // something should have happened
    assert!(trace.len() > 0);

    // there should be one return from fetching
    assert_eq!(trace.iter().filter(|t| matches!(t, TraceStep::Reader(FC::ReturnVal(_)))).count(), 1);

    // return value should be one of Success(4), Skipped(skipped), and SpinFail
    let last = prev_with(trace, trace.len(), |t| matches!(t, TraceStep::Reader(FC::ReturnVal(_))));
    let return_value = match last {
        Some(TraceStep::Reader(FC::ReturnVal(rval))) => rval,
        _ => unreachable!(),
    };
    assert!(
        return_value == RR::Success(4)
            || return_value == RR::Skipped(skipped)
            || return_value == RR::SpinFail
    );

    for (i, t) in trace.iter().enumerate() {
        // if, in the interval between the IndexCheckPre and IndexCheckPost,
        // an IndexPostUpdate occurs, the reader should do another read sequence
        // (or call it quits with a return of SpinFail)
        if *t == TraceStep::Reader(FC::Step(RPS::IndexCheckPost)) {
            let boundary = prev_with(trace, i, |t| {
                matches!(
                    t,
                    TraceStep::Reader(FC::Step(RPS::IndexCheckPre)) | TraceStep::Writer(WPS::IndexPostUpdate)
                )
            });
            let interleaved_postupdate = match boundary {
                Some(TraceStep::Reader(_)) => false,
                Some(TraceStep::Writer(_)) => true,
                None => panic!("An IndexCheckPost occurred without a preceding IndexCheckPre"),
            };
            if interleaved_postupdate {
                assert!(next_with(trace, i, |t| matches!(
                    t,
                    TraceStep::Reader(FC::Step(RPS::IndexCheckPre))
                        | TraceStep::Reader(FC::ReturnVal(RR::SpinFail))
                ))
                .is_some());
            }
        }

        // if the last read sequence occurs entirely before the write sequence,
        // we should return Success(4)
        if *t == TraceStep::Reader(FC::Step(RPS::IndexCheckPost))
            && next_with(trace, i, |t| *t == TraceStep::Reader(FC::Step(RPS::IndexCheckPost))).is_none()
        {
            if prev_with(trace, i, |t| matches!(t, TraceStep::Writer(_))).is_none() {
                assert_eq!(return_value, RR::Success(4));
            }
        }

        // if the last read sequence occurs entirely after the write sequence,
        // we should return Skipped(skipped) or, if *right* after the write sequence,
        // possibly SpinFail
        if *t == TraceStep::Reader(FC::Step(RPS::IndexCheckPre))
            && next_with(trace, i, |t| *t == TraceStep::Reader(FC::Step(RPS::IndexCheckPre))).is_none()
        {
            if next_with(trace, i, |t| matches!(t, TraceStep::Writer(_))).is_none() {
                if i >= 1 && matches!(trace[i - 1], TraceStep::Writer(_)) {
                    assert!(return_value == RR::Skipped(skipped) || return_value == RR::SpinFail);
                } else {
                    assert_eq!(return_value, RR::Skipped(skipped));
                }
            }
        }
    }
}

/// A test case with one write and one read where interference is possible in some cases.
#[test]
fn mini_model_interference_1w1r_no_ff() {
    run_next(0x23, 0x14, false, &mut |trace| check_interference(trace, 5));
}

#[test]
fn mini_model_interference_1w1r_ff() {
    run_next(0x23, 0x14, true, &mut |trace| check_interference(trace, 42));
}

/// What holds of every trace of one write and one fetch by index, and what the
/// fetch returned.
fn check_fetch(
    trace: &[TraceStep<Result<u32, InvalidIndexError>>],
) -> Result<u32, InvalidIndexError> {
    // something should have happened:
    assert!(trace.len() > 0);

    // the writer should proceed through the entire write protocol:
    assert_eq!(trace.iter().filter(|t| matches!(*t, TraceStep::Writer(_))).count(), 3);

    // the reader should proceed through the entire read protocol exactly once:
    assert_eq!(trace.iter().filter(|t| matches!(*t, TraceStep::Reader(FC::Step(_)))).count(), 3);

    // there should be only one return from fetching:
    let returns: Vec<_> = trace
        .iter()
        .filter_map(|t| if let TraceStep::Reader(FC::ReturnVal(rv)) = *t { Some(rv) } else { None })
        .collect();
    assert_eq!(returns.len(), 1);
    returns[0]
}

#[test]
fn fetch_model_no_interference() {
    for (index, value) in [(0x15, 5), (0x17, 7), (0x20, 0), (0x22, 2)] {
        run_fetch(0x23, index, &mut |trace| {
            assert_eq!(check_fetch(trace), Ok(value));
        });
    }
}

#[test]
fn fetch_model_definite_interference() {
    run_fetch(0x23, 0x13, &mut |trace| {
        assert!(matches!(check_fetch(trace), Err(_)));
    });
}

#[test]
fn fetch_model_possible_interference() {
    let (mut trace_err, mut trace_ok) = (false, false);

    run_fetch(0x23, 0x14, &mut |trace| {
        // the return should be either Ok(4) or Err:
        let returned = check_fetch(trace);
        assert!(matches!(returned, Ok(4) | Err(_)));

        trace_ok |= matches!(returned, Ok(_));
        trace_err |= matches!(returned, Err(_));

        for (i, t) in trace.iter().enumerate() {
            // if, before IndexCheckPost,
            // an IndexPostUpdate occurs, the reader should return Err; otherwise,
            // it should return Ok.
            if *t == TraceStep::Reader(FC::Step(RPS::IndexCheckPost)) {
                let update_before_check =
                    prev_with(trace, i, |t| matches!(t, TraceStep::Writer(WPS::IndexPostUpdate)))
                        .is_some();

                if update_before_check {
                    assert!(matches!(returned, Err(_)));
                } else {
                    assert_eq!(returned, Ok(4));
                }
            }
        }
    });

    // some trace should fail to fetch a value, and some trace should succeed:
    assert!(trace_err);
    assert!(trace_ok);
}

/// Every item that is delivered is the one that was written at the reader's position,
/// however the steps follow one another.
#[test]
fn what_is_delivered_was_written() {
    for start in [0usize, 1, 5, 14, 15, 16, 40] {
        for behind in 0..=start.min(20) {
            // slot s holds the latest position of the first `start` that lies in it
            let mut buf = [1_000_000u32; 16];
            for p in 0..start {
                buf[p % 16] = p as u32;
            }
            let p = start - behind;
            for fast_forward in [false, true] {
                let state = RunningState {
                    mem: Shared { buf, next: CBufIndex::new(start) },
                    writer: Writer::new(start, &[start as u32, start as u32 + 1]),
                    reader: FetchNextItemSeq::new(CBufIndex::new(p), fast_forward),
                    returned: false,
                    trace: Vec::new(),
                };
                iterate_over_event_sequences(state, &mut |trace| {
                    for t in trace {
                        if let TraceStep::Reader(FC::ReturnVal(r)) = *t {
                            match r {
                                RR::Success(v) => assert_eq!(v as usize, p),
                                RR::Skipped(v) => {
                                    assert!(p < v as usize && (v as usize) < start + 2)
                                }
                                RR::NoNewItems => assert_eq!(p, start),
                                RR::SpinFail => panic!("the writer has rested long enough"),
                            }
                        }
                    }
                });
            }
        }
    }
}
