//! Tests of searching.

use cbuf::search::test_fetched;
use cbuf::{CBuf, CBufIndex, CBufReader, CBufWriter, FetchWithIndexResult};
use std::cell::Cell;

#[test]
fn the_index_that_is_found_is_fixed_at_the_wrap() {
    let mut buf = [0u16; 8];
    let mut next = CBufIndex::<8>::new(usize::MAX - 3);
    let start = next;
    let mut writer = CBufWriter::new_from_ptr(Some(&mut buf), Some(&mut next)).unwrap();
    for i in 1..=4 {
        writer.add_item(i);
    }
    assert_eq!(next.as_usize(), 8);
    let reader = CBufReader::new_from_ptr(Some(&buf), Some(&next)).unwrap();

    let found = |from: CBufIndex<8>, least: u16| {
        let at = reader.reader_starting_at(from);
        let found = at.search(&|x: u16| x >= least, false).unwrap();
        found.current_next_index().as_usize()
    };
    assert_eq!(found(start, 1), usize::MAX - 3);
    assert_eq!(found(start, 2), usize::MAX - 2);
    assert_eq!(found(start, 3), usize::MAX - 1);
    // the last item is known by the index before the published one
    assert_eq!(found(start, 4), 7);
    // unless it is the first one searched
    assert_eq!(found(CBufIndex::new(usize::MAX), 4), usize::MAX);
    assert_eq!(found(CBufIndex::new(7), 4), 7);
}

#[test]
fn from_the_start_the_own_index_does_not_matter() {
    // every pattern of answers, sorted or not
    for pattern in 0u32..128 {
        let mut cbuf: CBuf<u32, 8> = CBuf::new(0);
        for i in 0..7 {
            cbuf.as_writer().add_item(pattern >> i & 1);
        }
        let reader = cbuf.as_reader();
        let search = |idx: usize| {
            let at = reader.reader_starting_at(CBufIndex::new(idx));
            let found = at.search(&|x: u32| x == 1, true);
            assert_eq!(at.current_next_index().as_usize(), idx);
            found.map(|r| r.current_next_index().as_usize())
        };
        let expected = search(0);
        for idx in [1, 3, 6, 7, 8, 1000, usize::MAX] {
            assert_eq!(search(idx), expected);
        }
        match expected {
            Ok(idx) => assert_eq!(pattern >> idx & 1, 1),
            Err(_) => assert_eq!(pattern & 0b1000001, 0),
        }
    }
}

#[test]
fn an_unsorted_search_bisects() {
    let mut cbuf: CBuf<u32, 16> = CBuf::new(0);
    // false at 0, true at 8, the middle 4 is true, the middle 2 is false, and so is 3
    for answer in [0, 1, 0, 0, 1, 0, 1, 1, 1] {
        cbuf.as_writer().add_item(answer);
    }
    let found = cbuf.as_reader().search(&|x: u32| x == 1, true).unwrap();
    assert_eq!(found.current_next_index().as_usize(), 4);
}

#[test]
fn the_predicate_is_asked_few_questions() {
    for count in 0..40u32 {
        for least in 0..=count {
            let mut cbuf: CBuf<u32, 16> = CBuf::new(999);
            for i in 0..count {
                cbuf.as_writer().add_item(i);
            }
            let reader = cbuf.as_reader();
            for fromstart in [false, true] {
                for idx in 0..=count {
                    let asked = Cell::new(0);
                    let at = reader.reader_starting_at(CBufIndex::new(idx as usize));
                    let result = at.search(
                        &|x: u32| {
                            asked.set(asked.get() + 1);
                            assert!(x < count && count <= x + 15);
                            assert!(fromstart || idx <= x);
                            x >= least
                        },
                        fromstart,
                    );
                    assert!(asked.get() <= 2 + 4);
                    if count == 0 || (!fromstart && idx == count) {
                        assert_eq!(asked.get(), 0);
                        assert!(result.is_err());
                    }
                }
            }
        }
    }
}

#[test]
fn the_largest_buffer_takes_all_the_questions() {
    let mut cbuf: CBuf<u32, 16> = CBuf::new(0);
    for i in 0..15 {
        cbuf.as_writer().add_item(i);
    }
    let asked = Cell::new(0);
    let result = cbuf.as_reader().search(
        &|x: u32| {
            asked.set(asked.get() + 1);
            x >= 14
        },
        true,
    );
    assert_eq!(result.unwrap().current_next_index().as_usize(), 14);
    // the items 0 and 14, and then 7, 10, 12 and 13
    assert_eq!(asked.get(), 6);
}

#[test]
fn what_is_fetched_is_tested() {
    let is_odd = |x: u8| x % 2 == 1;
    let idx = CBufIndex::<4>::new(9);
    let success = FetchWithIndexResult::Success(3, idx);
    let skipped = FetchWithIndexResult::Skipped(4, idx);
    assert_eq!(test_fetched(success, &is_odd), Some((true, idx)));
    assert_eq!(test_fetched(skipped, &is_odd), Some((false, idx)));
    assert_eq!(test_fetched(FetchWithIndexResult::<u8, 4>::NoNewItems, &is_odd), None);
    assert_eq!(test_fetched(FetchWithIndexResult::<u8, 4>::SpinFail, &is_odd), None);
}
