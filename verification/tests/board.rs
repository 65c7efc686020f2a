use morpion_solitaire::game::board::Board;

#[test]
fn insert_contains_remove_with_negative_coords() {
    let mut b = Board::new();
    // Coordinates span both signs, as real games do once they grow.
    let pts = [(0i16, 0i16), (-30, 12), (40, -25), (-50, -50), (55, 55)];
    for &p in &pts {
        assert!(!b.contains(p));
        assert!(b.insert(p));
        assert!(b.contains(p));
    }
    assert_eq!(b.len(), pts.len());
    // remove is LIFO (undo discipline): pop in reverse order.
    for &p in pts.iter().rev() {
        assert!(b.contains(p));
        b.remove(p);
        assert!(!b.contains(p));
    }
    assert!(b.is_empty());
}

#[test]
fn insert_past_margin_signals_overflow_without_panicking() {
    let mut b = Board::new();
    // Far outside the interior: the overflow is signalled by the refusal;
    // nothing is written and nothing panics.
    assert!(!b.insert((10_000, 0)));
    assert!(b.is_empty());
    // Just inside / just outside the margin of the fixed grid.
    assert!(b.insert((64, 64)));
    assert!(!b.insert((65, 0)));
    assert!(!b.insert((-56, 0)));
    assert!(b.insert((-55, 0)));
    assert_eq!(b.len(), 2);
    assert!(!b.contains((10_000, 0)));
    assert!(!b.contains((-32768, 32767)));
}

#[test]
fn row_reflects_occupancy() {
    let mut b = Board::new();
    assert!(b.insert((3, 0)));
    // OFFSET 59: point (3, 0) is grid cell (62, 59).
    assert_eq!(b.row(59), 1u128 << 62);
    assert_eq!(b.row(60), 0);
}
