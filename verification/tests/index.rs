//! Tests of indexes.

use cbuf::CBufIndex;

fn index(i: usize) -> CBufIndex<16> {
    CBufIndex::new(i)
}

#[test]
fn indexes_wrap_to_the_size() {
    assert_eq!(index(0) + 5, index(5));
    assert_eq!(index(usize::MAX - 1) + 1, index(usize::MAX));
    assert_eq!(index(usize::MAX) + 1, index(16));
    assert_eq!(index(usize::MAX - 2) + 10, index(23));
    assert_eq!(index(usize::MAX) + usize::MAX, index(30));
    assert_eq!(index(7) + usize::MAX, index(22));
}

#[test]
fn going_forward_adds_up() {
    for start in [0, 3, 16, usize::MAX - 5, usize::MAX] {
        for (a, b) in [(0, 0), (1, 2), (4, 9), (100, usize::MAX - 100)] {
            assert_eq!((index(start) + a) + b, index(start) + (a + b));
        }
    }
}

#[test]
fn going_back_stops_at_the_first() {
    assert_eq!(index(20) - 15, index(5));
    assert_eq!(index(3) - 15, index(0));
    assert_eq!(index(0) - 1, index(0));
    assert_eq!(index(16) - 15, index(1));
}

#[test]
fn slots_follow_one_another_across_the_wrap() {
    assert_eq!(index(0x35).slot(), 5);
    assert_eq!(index(usize::MAX).slot(), 15);
    assert_eq!((index(usize::MAX) + 1).slot(), 0);
    assert_eq!((index(usize::MAX - 3) + 7).slot(), 3);
}

#[test]
fn ranges_run_across_the_wrap() {
    assert!(index(5).is_in_range(index(5), 1));
    assert!(!index(5).is_in_range(index(5), 0));
    assert!(index(19).is_in_range(index(5), 15));
    assert!(!index(20).is_in_range(index(5), 15));
    assert!(!index(4).is_in_range(index(5), 15));
    assert!(index(16).is_in_range(index(usize::MAX), 2));
    assert!(index(28).is_in_range(index(usize::MAX - 1), 15));
    assert!(!index(29).is_in_range(index(usize::MAX - 1), 15));
    assert!(!index(0).is_in_range(index(usize::MAX), 15));
}

#[test]
fn steps_and_distances() {
    assert_eq!(index(3).steps_to(index(9)), Some(6));
    assert_eq!(index(usize::MAX).steps_to(index(17)), Some(2));
    assert_eq!(index(9).steps_to(index(3)), None);
    assert_eq!(index(9) - index(3), Some(6));
    assert_eq!(index(3) - index(9), None);
    assert_eq!(index(17) - index(usize::MAX), Some(2));
    assert_eq!(index(usize::MAX) - index(17), None);
    assert_eq!(index(9) - index(9), Some(0));
    assert_eq!(index(3).gap_to(index(9)), 6);
    // fifteen stands for the last index of all
    assert_eq!(index(usize::MAX - 2).gap_to(index(15)), 2);
}

#[test]
fn order_goes_by_the_shorter_way() {
    assert!(index(3) < index(9));
    assert!(index(9) > index(3));
    assert!(index(9) >= index(9) && index(9) <= index(9));
    assert!(index(usize::MAX) < index(16));
    assert!(index(20) > index(usize::MAX - 20));
    assert!(index(16).is_before(index(17)));
    assert!(!index(17).is_before(index(16)));
    assert!(!index(17).is_before(index(17)));
    assert_ne!(index(1), index(2));
}
