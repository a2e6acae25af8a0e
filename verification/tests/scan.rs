use prescient::mpmc::brokerless::scan::{Cursor, QUANTUM};

#[test]
fn hot_rings_receive_bounded_service() {
    let mut cursor = Cursor::new(0);
    for i in 0..3 * usize::from(QUANTUM) * 4 {
        assert_eq!(cursor.next(3), i / usize::from(QUANTUM) % 3);
        cursor.prefer();
    }
}

#[test]
fn empty_busy_and_unwinding_drains_advance_without_preference() {
    let mut cursor = Cursor::new(1);
    assert_eq!(cursor.next(3), 1);
    cursor.prefer();
    assert_eq!(cursor.next(3), 1);
    assert_eq!(cursor.next(3), 2);
    assert_eq!(cursor.next(3), 0);
    assert_eq!(cursor.next(3), 1);
}

#[test]
fn growth_is_seen_after_bounded_preference_and_large_seeds_wrap() {
    let mut cursor = Cursor::new(usize::MAX);
    for _ in 0..QUANTUM {
        assert_eq!(cursor.next(1), 0);
        cursor.prefer();
    }
    assert_eq!(cursor.next(2), 1);
    assert_eq!(cursor.next(1), 0);
}
