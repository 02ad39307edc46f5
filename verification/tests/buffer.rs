//! Tests of buffers, readers and writers.

use cbuf::protocol::{valid_range, yielded};
use cbuf::ReadResult as RR;
use cbuf::{CBuf, CBufIndex, CBufReader, CBufWriter, FetchWithIndexResult};

#[test]
fn can_construct_cbuf() {
    let a: CBuf<u32, 256> = CBuf::new(42);

    let (buf, next) = a.as_ptrs();
    assert_eq!(next.as_usize(), 0usize);
    assert_eq!(buf.len(), 256);
    assert!(buf.iter().all(|x| *x == 42u32));

    let _b: CBuf<(u64, i32), 64> = CBuf::new((5u64, -3));

    let _c: CBuf<(), 16> = CBuf::new(());

    let _d: CBuf<(), 4096> = CBuf::new_with_default();

    let e: CBuf<isize, 128> = CBuf::new_with_default();

    let (buf, next) = e.as_ptrs();
    assert_eq!(next.as_usize(), 0usize);
    assert_eq!(buf.len(), 128);
    assert!(buf.iter().all(|x| *x == <isize as Default>::default()));
}

#[test]
fn can_initialize_cbuf() {
    let mut cb: CBuf<u16, 128> = CBuf::new(3);
    cb.as_writer().add_item(4);
    CBuf::initialize(Some(&mut cb), 1729);

    let (buf, next) = cb.as_ptrs();
    assert_eq!(next.as_usize(), 0usize);
    assert!(buf.iter().all(|x| *x == 1729));
}

#[test]
fn can_initialize_with_default() {
    let mut cb: CBuf<u16, 4> = CBuf::new(3);
    cb.as_writer().add_item(4);
    CBuf::initialize_with_default(Some(&mut cb));
    assert_eq!(*cb.as_ptrs().0, [0u16; 4]);
    assert_eq!(cb.as_ptrs().1.as_usize(), 0);

    // without a buffer nothing is done
    CBuf::<u16, 4>::initialize(None, 5);
    CBuf::<u16, 4>::initialize_with_default(None);
}

fn run_cbuf_add_item(
    initial_buffer: [i16; 4],
    initial_next: usize,
    item: i16,
    final_buffer: [i16; 4],
    final_next: usize,
) {
    let mut buf = initial_buffer;
    let mut next = CBufIndex::<4>::new(initial_next);
    let mut writer = CBufWriter::new_from_ptr(Some(&mut buf), Some(&mut next)).unwrap();

    writer.add_item(item);
    assert_eq!(writer.next_local.as_usize(), final_next);
    assert_eq!(buf, final_buffer);
    assert_eq!(next.as_usize(), final_next);
}

#[test]
fn add_an_item() {
    run_cbuf_add_item([-1, -2, -3, -4], 0, 99, [99, -2, -3, -4], 1);

    run_cbuf_add_item([99, -2, -3, -4], 1, 101, [99, 101, -3, -4], 2);

    run_cbuf_add_item([-1, -2, -3, -4], 3, 99, [-1, -2, -3, 99], 4);

    run_cbuf_add_item([-1, -2, -3, 99], 4, 101, [101, -2, -3, 99], 5);

    run_cbuf_add_item([-1, -2, -3, -4], 0x12, 99, [-1, -2, 99, -4], 0x13);

    run_cbuf_add_item([-1, -2, 99, -4], 0x13, 101, [-1, -2, 99, 101], 0x14);

    run_cbuf_add_item([-1, -2, 99, 101], 0x14, 202, [202, -2, 99, 101], 0x15);

    run_cbuf_add_item([-1, -2, -3, -4], usize::MAX - 1, 99, [-1, -2, 99, -4], usize::MAX);

    run_cbuf_add_item([-1, -2, 99, -4], usize::MAX, 101, [-1, -2, 99, 101], 4);
}

fn write(cbuf: &mut CBuf<u32, 16>, item: u32) {
    let (buf, next) = cbuf.as_mut_ptrs();
    let mut writer = CBufWriter::<_, 16>::new_from_ptr(Some(buf), Some(next)).unwrap();
    writer.add_item(item);
}

fn new_reader(cbuf: &CBuf<u32, 16>) -> CBufReader<'_, u32, 16> {
    let (buf, next) = cbuf.as_ptrs();
    CBufReader::<_, 16>::new_from_ptr(Some(buf), Some(next)).unwrap()
}

fn fetch(cbuf: &CBuf<u32, 16>, at: &mut CBufIndex<16>, fast_forward: bool) -> RR<u32> {
    let mut reader = new_reader(cbuf).reader_starting_at(*at);
    let result = reader.fetch_next_item(fast_forward);
    *at = reader.current_next_index();
    result
}

#[test]
fn write_then_read() {
    let mut cbuf: CBuf<u32, 16> = CBuf::new_with_default();

    let mut reader1 = new_reader(&cbuf).current_next_index();

    assert_eq!(fetch(&cbuf, &mut reader1, false), RR::NoNewItems);

    write(&mut cbuf, 42);
    assert_eq!(fetch(&cbuf, &mut reader1, false), RR::Success(42));

    let mut reader2 = new_reader(&cbuf).current_next_index();
    assert_eq!(fetch(&cbuf, &mut reader2, false), RR::NoNewItems);

    write(&mut cbuf, 43);
    assert_eq!(fetch(&cbuf, &mut reader1, false), RR::Success(43));

    write(&mut cbuf, 44);
    assert_eq!(fetch(&cbuf, &mut reader1, false), RR::Success(44));
    assert_eq!(fetch(&cbuf, &mut reader1, false), RR::NoNewItems);
    assert_eq!(fetch(&cbuf, &mut reader2, false), RR::Success(43));
    assert_eq!(fetch(&cbuf, &mut reader2, false), RR::Success(44));
    assert_eq!(fetch(&cbuf, &mut reader2, false), RR::NoNewItems);

    for _ in 0..3 {
        write(&mut cbuf, 99);
        assert_eq!(fetch(&cbuf, &mut reader1, false), RR::Success(99));
    }

    for i in 100..115 {
        write(&mut cbuf, i);
        assert_eq!(fetch(&cbuf, &mut reader1, false), RR::Success(i));
    }

    assert_eq!(fetch(&cbuf, &mut reader2, false), RR::Skipped(100));
    for i in 101..115 {
        assert_eq!(fetch(&cbuf, &mut reader2, false), RR::Success(i));
    }

    for i in 200..215 {
        write(&mut cbuf, i);
    }
    for i in 200..215 {
        assert_eq!(fetch(&cbuf, &mut reader1, false), RR::Success(i));
    }

    write(&mut cbuf, 300);
    assert_eq!(fetch(&cbuf, &mut reader2, true), RR::Skipped(300));
}

#[test]
fn write_wrap_read_search() {
    const SZ: usize = 16;
    let mut cbuf: CBuf<u16, SZ> = CBuf::new(9999);

    let ivalids = cbuf.as_reader().current_valid_index_range();
    assert_eq!(ivalids.start.as_usize(), 0);
    assert_eq!(ivalids.end.as_usize(), 0);

    let mut writer = cbuf.as_writer();

    for i in 0u16..3 * (SZ as u16) {
        writer.add_item(i);
    }

    let mut reader = cbuf.as_reader();

    let ivalids = reader.current_valid_index_range();

    assert_eq!(ivalids.start.as_usize(), 2 * SZ + 1);
    assert_eq!(ivalids.end.as_usize(), 3 * SZ);

    reader.rewind();

    let mut i = ivalids.start.as_usize() as u16;
    let mut items = reader.available_items_iter(false);
    while let Some(value) = items.next() {
        match value {
            RR::Success(v) => {
                assert_eq!(v, i);
                i += 1;
            }
            _ => {
                panic!("Read back failed at {}: {:?}", i, value);
            }
        }
    }
    assert_eq!(i, 3 * SZ as u16);

    // Search for value no earlier than a read index
    let idx_partway = ivalids.start + 10;
    let partreader = reader.reader_starting_at(idx_partway);
    for i in ivalids.start.as_usize() - 1..ivalids.end.as_usize() + 1 {
        let predicate = |x: u16| x >= i as u16;
        match partreader.search(&predicate, false) {
            Ok(mut foundreader) => {
                let idx = foundreader.current_next_index();
                let value = match foundreader.fetch_next_item(false) {
                    RR::Success(value) => value,
                    _ => {
                        panic!("Read after reduced search failed at {}", idx.as_usize());
                    }
                };
                assert_eq!(value, reader.fetch(idx).unwrap());
                assert!(predicate(value));
                assert!(idx >= idx_partway);
                if i >= idx_partway.as_usize() {
                    assert_eq!(idx.as_usize() as u16, value);
                } else {
                    assert!((i as u16) < value);
                }
            }
            Err(_) => {
                assert!(!predicate(partreader.fetch(ivalids.end - 1).unwrap()));
            }
        }
    }

    // Search for value from start
    for i in ivalids.start.as_usize() - 1..ivalids.end.as_usize() + 1 {
        let predicate = |x: u16| x >= i as u16;
        match reader.search(&predicate, true) {
            Ok(mut foundreader) => {
                let idx = foundreader.current_next_index();
                let value = match foundreader.fetch_next_item(false) {
                    RR::Success(value) => value,
                    _ => {
                        panic!("Read after full search failed at {}", idx.as_usize());
                    }
                };
                assert!(predicate(value));
                if i >= ivalids.start.as_usize() {
                    assert_eq!(idx.as_usize() as u16, value);
                } else {
                    assert!((i as u16) < value);
                }
            }
            Err(_) => {
                assert!(!predicate(reader.fetch(ivalids.end - 1).unwrap()));
            }
        }
    }
}

#[test]
fn nothing_is_made_of_missing_memory() {
    let buf = [1u8; 4];
    let next = CBufIndex::<4>::new(0);
    assert!(CBufReader::<u8, 4>::new_from_ptr(None, Some(&next)).is_none());
    assert!(CBufReader::<u8, 4>::new_from_ptr(Some(&buf), None).is_none());
    assert!(CBufReader::<u8, 4>::new_from_ptr(None, None).is_none());

    let mut buf = [1u8; 4];
    let mut next = CBufIndex::<4>::new(0);
    assert!(CBufWriter::<u8, 4>::new_from_ptr(None, Some(&mut next)).is_none());
    assert!(CBufWriter::<u8, 4>::new_from_ptr(Some(&mut buf), None).is_none());
    assert!(CBufWriter::<u8, 4>::new_from_ptr(None, None).is_none());
}

fn current_items<const SIZE: usize>(writer: &mut CBufWriter<'_, u8, SIZE>) -> Vec<u8> {
    let mut items = writer.current_items_iter();
    let mut v = Vec::new();
    while let Some(item) = items.next() {
        v.push(item);
    }
    assert_eq!(items.next(), None);
    v
}

#[test]
fn current_items_are_the_latest() {
    let mut cbuf: CBuf<u8, 4> = CBuf::new(0);
    let mut writer = cbuf.as_writer();
    assert_eq!(current_items(&mut writer), vec![]);
    writer.add_item(1);
    assert_eq!(current_items(&mut writer), vec![1]);
    writer.add_item(2);
    writer.add_item(3);
    assert_eq!(current_items(&mut writer), vec![1, 2, 3]);
    writer.add_item(4);
    assert_eq!(current_items(&mut writer), vec![2, 3, 4]);
}

#[test]
fn current_items_across_the_wrap() {
    let mut buf = [0u8; 4];
    let mut next = CBufIndex::<4>::new(usize::MAX - 1);
    let mut writer = CBufWriter::new_from_ptr(Some(&mut buf), Some(&mut next)).unwrap();
    for i in 1..=3 {
        writer.add_item(i);
    }
    assert_eq!(writer.next_local.as_usize(), 5);
    assert_eq!(current_items(&mut writer), vec![1, 2, 3]);
    assert_eq!(next.as_usize(), 5);
}

#[test]
fn a_reader_starts_at_the_end_or_at_the_oldest_item() {
    let mut cbuf: CBuf<u8, 8> = CBuf::new(0);
    for i in 1..=10 {
        cbuf.as_writer().add_item(i);
    }
    assert_eq!(cbuf.as_reader().fetch_next_item(false), RR::NoNewItems);

    let mut writer = cbuf.as_writer();
    let mut reader = writer.as_reader();
    for i in 4..=10 {
        assert_eq!(reader.fetch_next_item(false), RR::Success(i));
    }
    assert_eq!(reader.fetch_next_item(false), RR::NoNewItems);

    reader.rewind();
    assert_eq!(reader.fetch_next_item(false), RR::Success(4));
    reader.fast_forward();
    assert_eq!(reader.fetch_next_item(false), RR::NoNewItems);
}

#[test]
fn the_filler_is_never_read() {
    let mut cbuf: CBuf<u8, 4> = CBuf::new(77);
    let mut reader = cbuf.as_reader();
    reader.rewind();
    assert_eq!(reader.fetch_next_item(false), RR::NoNewItems);
    assert!(reader.fetch(CBufIndex::new(0)).is_err());
    assert_eq!(reader.fetch_with_index(CBufIndex::new(0)), FetchWithIndexResult::NoNewItems);

    cbuf.as_writer().add_item(1);
    let mut reader = cbuf.as_reader();
    reader.rewind();
    assert_eq!(reader.fetch_next_item(false), RR::Success(1));
    assert_eq!(reader.fetch_next_item(false), RR::NoNewItems);
}

#[test]
fn an_iterator_stops_where_it_is_left() {
    let mut cbuf: CBuf<u8, 8> = CBuf::new(0);
    for i in 1..=5 {
        cbuf.as_writer().add_item(i);
    }
    let mut reader = cbuf.as_reader();
    reader.rewind();
    let mut items = reader.available_items_iter(false);
    assert_eq!(items.next(), Some(RR::Success(1)));
    assert_eq!(items.next(), Some(RR::Success(2)));
    assert_eq!(reader.current_next_index().as_usize(), 2);

    let mut items = reader.available_items_iter(true);
    for i in 3..=5 {
        assert_eq!(items.next(), Some(RR::Success(i)));
    }
    assert_eq!(items.next(), None);
    assert_eq!(items.next(), None);
}

#[test]
fn fetching_by_index() {
    let mut cbuf: CBuf<u8, 4> = CBuf::new(0);
    for i in 0..10 {
        cbuf.as_writer().add_item(i);
    }
    let reader = cbuf.as_reader();
    let valids = reader.current_valid_index_range();
    assert_eq!((valids.start.as_usize(), valids.end.as_usize()), (7, 10));

    assert!(reader.fetch(CBufIndex::new(6)).is_err());
    assert_eq!(reader.fetch(CBufIndex::new(7)), Ok(7));
    assert_eq!(reader.fetch(CBufIndex::new(9)), Ok(9));
    assert!(reader.fetch(CBufIndex::new(10)).is_err());

    assert_eq!(
        reader.fetch_with_index(CBufIndex::new(8)),
        FetchWithIndexResult::Success(8, CBufIndex::new(8))
    );
    assert_eq!(
        reader.fetch_with_index(CBufIndex::new(2)),
        FetchWithIndexResult::Skipped(7, CBufIndex::new(7))
    );
    assert_eq!(reader.fetch_with_index(CBufIndex::new(10)), FetchWithIndexResult::NoNewItems);
    assert_eq!(reader.fetch_with_index(CBufIndex::new(1000)), FetchWithIndexResult::NoNewItems);
}

#[test]
fn reading_across_the_wrap() {
    let mut buf = [0u16; 8];
    let mut next = CBufIndex::<8>::new(usize::MAX - 2);
    let start = next;
    let mut writer = CBufWriter::new_from_ptr(Some(&mut buf), Some(&mut next)).unwrap();
    for i in 1..=6 {
        writer.add_item(i);
    }
    assert_eq!(next.as_usize(), 11);

    let mut reader = CBufReader::new_from_ptr(Some(&buf), Some(&next)).unwrap();
    let at_start = reader.reader_starting_at(start);
    let mut sequential = at_start.clone();
    for i in 1..=6 {
        assert_eq!(sequential.fetch_next_item(false), RR::Success(i));
    }
    assert_eq!(sequential.fetch_next_item(false), RR::NoNewItems);

    // the oldest index is named as if nothing had wrapped
    reader.rewind();
    assert_eq!(reader.current_next_index().as_usize(), 4);

    for i in 1..=6u16 {
        let found = at_start.search(&|x: u16| x >= i, false).unwrap();
        let idx = found.current_next_index();
        assert_eq!(found.fetch(idx), Ok(i));
        assert_eq!(idx, start + (i as usize - 1));
    }
    assert!(at_start.search(&|x: u16| x >= 7, false).is_err());

    // an index that went stale before the wrap
    assert_eq!(
        reader.fetch_with_index(CBufIndex::new(usize::MAX - 20)),
        FetchWithIndexResult::Skipped(0, CBufIndex::new(4))
    );
}

#[test]
fn searching_where_the_last_item_is_the_last_before_the_wrap() {
    let mut buf = [0u16; 8];
    let mut next = CBufIndex::<8>::new(usize::MAX - 3);
    let start = next;
    let mut writer = CBufWriter::new_from_ptr(Some(&mut buf), Some(&mut next)).unwrap();
    for i in 1..=4 {
        writer.add_item(i);
    }
    assert_eq!(next.as_usize(), 8);

    let reader = CBufReader::new_from_ptr(Some(&buf), Some(&next)).unwrap();
    let at_start = reader.reader_starting_at(start);
    for i in 1..=4u16 {
        let mut found = at_start.search(&|x: u16| x >= i, false).unwrap();
        for k in i..=4 {
            assert_eq!(found.fetch_next_item(false), RR::Success(k));
        }
        assert_eq!(found.fetch_next_item(false), RR::NoNewItems);
    }
}

#[test]
fn searching_finds_the_first_item() {
    let mut cbuf: CBuf<u16, 16> = CBuf::new(0);
    assert!(cbuf.as_reader().search(&|_: u16| true, true).is_err());
    assert!(cbuf.as_reader().search(&|_: u16| true, false).is_err());
    for i in [3, 5, 5, 8, 13] {
        cbuf.as_writer().add_item(i);
    }
    let reader = cbuf.as_reader();
    let at = |least: u16| {
        let found = reader.search(&|x: u16| x >= least, true);
        found.map(|r| r.current_next_index().as_usize())
    };
    assert_eq!(at(0), Ok(0));
    assert_eq!(at(3), Ok(0));
    assert_eq!(at(4), Ok(1));
    assert_eq!(at(5), Ok(1));
    assert_eq!(at(6), Ok(3));
    assert_eq!(at(13), Ok(4));
    assert!(at(14).is_err());
    // from the end on there is nothing to find
    assert!(reader.search(&|_: u16| true, false).is_err());
}

#[test]
fn a_reader_of_a_buffer_that_was_initialized_again_catches_up() {
    let mut cbuf: CBuf<u32, 16> = CBuf::new(0);
    for i in 0..40 {
        write(&mut cbuf, i);
    }
    let mut at = new_reader(&cbuf).current_next_index();
    CBuf::initialize(Some(&mut cbuf), 0);
    assert_eq!(fetch(&cbuf, &mut at, false), RR::NoNewItems);
    write(&mut cbuf, 500);
    write(&mut cbuf, 501);
    assert_eq!(fetch(&cbuf, &mut at, false), RR::Skipped(500));
    assert_eq!(fetch(&cbuf, &mut at, false), RR::Success(501));
}

#[test]
fn whatever_the_index_only_current_items_are_read() {
    for count in 0..40u32 {
        let mut cbuf: CBuf<u32, 8> = CBuf::new(999);
        for i in 0..count {
            cbuf.as_writer().add_item(i);
        }
        let is_current = |v: u32| v < count && count <= v + 7;
        let reader = cbuf.as_reader();
        for idx in (0..100).chain(usize::MAX - 100..=usize::MAX) {
            for fast_forward in [false, true] {
                let mut at = reader.reader_starting_at(CBufIndex::new(idx));
                match at.fetch_next_item(fast_forward) {
                    RR::Success(v) | RR::Skipped(v) => {
                        assert!(is_current(v));
                        // from there on it goes on in order
                        let next = at.fetch_next_item(fast_forward);
                        let is_last = v + 1 == count;
                        assert_eq!(next, if is_last { RR::NoNewItems } else { RR::Success(v + 1) });
                    }
                    RR::NoNewItems => assert!(count == 0 || idx == count as usize),
                    RR::SpinFail => unreachable!(),
                }
            }
            if let Ok(v) = reader.fetch(CBufIndex::new(idx)) {
                assert!(is_current(v));
                assert_eq!(v as usize % 8, idx % 8);
            }
        }
    }
}

#[test]
fn the_filler_does_not_matter() {
    for count in 0..20 {
        let mut cbuf1: CBuf<u32, 8> = CBuf::new(111);
        let mut cbuf2: CBuf<u32, 8> = CBuf::new(222);
        for i in 0..count {
            cbuf1.as_writer().add_item(i);
            cbuf2.as_writer().add_item(i);
        }
        for idx in (0..30).chain(usize::MAX - 30..=usize::MAX) {
            let idx = CBufIndex::new(idx);
            let mut reader1 = cbuf1.as_reader().reader_starting_at(idx);
            let mut reader2 = cbuf2.as_reader().reader_starting_at(idx);
            assert_eq!(reader1.fetch(idx), reader2.fetch(idx));
            assert_eq!(reader1.fetch_with_index(idx), reader2.fetch_with_index(idx));
            for fast_forward in [false, true, false, false] {
                for least in [0, 5, 111, 222] {
                    let found1 = reader1.search(&|x: u32| x >= least, fast_forward);
                    let found2 = reader2.search(&|x: u32| x >= least, fast_forward);
                    assert_eq!(
                        found1.map(|r| r.current_next_index()),
                        found2.map(|r| r.current_next_index())
                    );
                }
                assert_eq!(
                    reader1.fetch_next_item(fast_forward),
                    reader2.fetch_next_item(fast_forward)
                );
                assert_eq!(reader1.current_next_index(), reader2.current_next_index());
            }
        }
        let (mut writer1, mut writer2) = (cbuf1.as_writer(), cbuf2.as_writer());
        let (mut items1, mut items2) =
            (writer1.current_items_iter(), writer2.current_items_iter());
        for _ in 0..9 {
            assert_eq!(items1.next(), items2.next());
        }
    }
}

#[test]
fn a_reader_that_never_read_is_told_apart_until_the_indexes_wrap() {
    let mut buf = [0u16; 8];
    let mut next = CBufIndex::<8>::new(usize::MAX - 7);
    let mut writer = CBufWriter::new_from_ptr(Some(&mut buf), Some(&mut next)).unwrap();
    for i in 1..=7 {
        writer.add_item(i);
    }
    assert_eq!(next.as_usize(), usize::MAX);
    let reader = CBufReader::new_from_ptr(Some(&buf), Some(&next)).unwrap();
    for idx in 0..8 {
        let mut at = reader.reader_starting_at(CBufIndex::new(idx));
        assert!(at.fetch(CBufIndex::new(idx)).is_err());
        assert_eq!(at.fetch_next_item(false), RR::Skipped(1));
        let mut at = reader.reader_starting_at(CBufIndex::new(idx));
        assert_eq!(at.fetch_next_item(true), RR::Skipped(7));
    }
}

#[test]
fn an_iteration_ends() {
    for count in 0..20 {
        let mut cbuf: CBuf<u32, 8> = CBuf::new(0);
        for i in 0..count {
            cbuf.as_writer().add_item(i);
        }
        for idx in (0..30).chain(usize::MAX - 30..=usize::MAX) {
            for fast_forward in [false, true] {
                let mut reader = cbuf.as_reader().reader_starting_at(CBufIndex::new(idx));
                let mut items = reader.available_items_iter(fast_forward);
                let mut given = 0;
                while items.next().is_some() {
                    given += 1;
                }
                assert!(given <= 7);
            }
        }
    }
}

#[test]
fn items_are_given_in_the_order_in_which_they_were_added() {
    // every way to take turns, by the bits of a number
    for turns in 0..4096u32 {
        let mut cbuf: CBuf<u32, 4> = CBuf::new(0);
        let mut at = CBufIndex::new(0);
        let mut added = 0;
        let mut last_given = 0;
        for turn in 0..12 {
            if turns >> turn & 1 == 0 {
                added += 1;
                cbuf.as_writer().add_item(added);
            } else {
                let mut reader = cbuf.as_reader().reader_starting_at(at);
                match reader.fetch_next_item(turn % 3 == 0) {
                    RR::Success(v) => {
                        assert_eq!(v, last_given + 1);
                        last_given = v;
                    }
                    RR::Skipped(v) => {
                        assert!(last_given + 1 < v && v <= added);
                        last_given = v;
                    }
                    RR::NoNewItems => assert_eq!(last_given, added),
                    RR::SpinFail => unreachable!(),
                }
                at = reader.current_next_index();
            }
        }
    }
}

#[test]
fn valid_ranges_start_at_the_oldest_item() {
    let range = valid_range(CBufIndex::<8>::new(20));
    assert_eq!((range.start.as_usize(), range.end.as_usize()), (13, 20));
    let range = valid_range(CBufIndex::<8>::new(3));
    assert_eq!((range.start.as_usize(), range.end.as_usize()), (0, 3));
}

#[test]
fn an_iterator_yields_all_but_the_end() {
    let mut is_done = false;
    assert_eq!(yielded(RR::Success(1), &mut is_done), Some(RR::Success(1)));
    assert_eq!(yielded(RR::Skipped(2), &mut is_done), Some(RR::Skipped(2)));
    assert_eq!(yielded(RR::<u8>::SpinFail, &mut is_done), Some(RR::SpinFail));
    assert!(!is_done);
    assert_eq!(yielded(RR::<u8>::NoNewItems, &mut is_done), None);
    assert!(is_done);
}
