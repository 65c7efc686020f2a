use morpion_solitaire::record::cross::initial_cross;
use morpion_solitaire::record::model::{Direction, RecordMove, Variant};
use morpion_solitaire::record::validate::{validate, ValidationError};
use std::collections::HashSet;

#[test]
fn variant_and_direction_codes_roundtrip() {
    for v in [Variant::T4, Variant::D4, Variant::T5, Variant::D5] {
        assert_eq!(Variant::from_code(v.code()), Some(v));
    }
    assert_eq!(Variant::from_code("t5"), Some(Variant::T5)); // case + order insensitive
    for d in Direction::all() {
        assert_eq!(Direction::from_code(d.code()), Some(d));
    }
}

#[test]
fn cross_sizes() {
    assert_eq!(initial_cross(Variant::T5).len(), 36);
    // 4T/4D: a centred D4-symmetric Greek cross on a 0..=6 grid.
    assert_eq!(initial_cross(Variant::T4).len(), 24);
}

/// The initial cross is D4-symmetric on its `0..=w` grid. Invariance under an
/// axis reflection and the main-diagonal transpose generates all of D4.
#[test]
fn format_initial_cross_is_d4_symmetric() {
    for v in [Variant::T5, Variant::T4] {
        let pts: HashSet<(i16, i16)> = initial_cross(v).into_iter().collect();
        let w = pts.iter().flat_map(|&(x, y)| [x, y]).max().unwrap();
        let reflect_x: HashSet<(i16, i16)> = pts.iter().map(|&(x, y)| (w - x, y)).collect();
        let transpose: HashSet<(i16, i16)> = pts.iter().map(|&(x, y)| (y, x)).collect();
        assert_eq!(pts, reflect_x, "{v:?}: cross not symmetric under x-reflection");
        assert_eq!(pts, transpose, "{v:?}: cross not symmetric under transpose");
    }
}

#[test]
fn cross_is_sorted_and_without_duplicates() {
    for v in [Variant::T4, Variant::D4, Variant::T5, Variant::D5] {
        let pts = initial_cross(v);
        for w in pts.windows(2) {
            assert!((w[0].1, w[0].0) < (w[1].1, w[1].0), "{v:?}: cross not in strict row-major order");
        }
    }
    let t5 = initial_cross(Variant::T5);
    assert_eq!(t5[0], (3, 0));
    assert_eq!(t5[1], (4, 0));
    assert_eq!(t5[4], (3, 1));
}

#[test]
fn variant_codes_and_line_lengths() {
    assert_eq!(Variant::T5.code(), "5T");
    assert_eq!(Variant::D4.code(), "4D");
    assert_eq!(Variant::from_code("D5"), Some(Variant::D5));
    assert_eq!(Variant::from_code("4t"), Some(Variant::T4));
    assert_eq!(Variant::from_code("5X"), None);
    assert_eq!(Variant::from_code("55T"), None);
    assert_eq!(Variant::T4.line_len(), 4);
    assert_eq!(Variant::D5.line_len(), 5);
    assert!(Variant::D4.disjoint());
    assert!(!Variant::T5.disjoint());
    assert_eq!(Direction::from_code("/"), None);
}

#[test]
fn record_move_line_points() {
    let m = RecordMove { x: 3, y: -1, dir: Direction::V, pos: 4 };
    assert_eq!(m.origin(), (3, -5));
    assert_eq!(m.line_points(5), vec![(3, -5), (3, -4), (3, -3), (3, -2), (3, -1)]);
    let d = RecordMove { x: 0, y: 0, dir: Direction::DP, pos: 1 };
    assert_eq!(d.origin(), (-1, 1));
}

#[test]
fn validator_accepts_a_first_move_and_rejects_errors() {
    // A first 5T move: the row y = 3 from x = -1 to x = 3 (cross cells at x = 0..=3).
    let good = RecordMove { x: -1, y: 3, dir: Direction::H, pos: 0 };
    assert_eq!(validate(Variant::T5, &[good]), Ok(()));
    // Playing the same move twice: the point is already occupied.
    assert!(validate(Variant::T5, &[good, good]).is_err());
    // A line position outside the line.
    let bad_pos = RecordMove { x: -1, y: 3, dir: Direction::H, pos: 7 };
    assert!(matches!(
        validate(Variant::T5, &[bad_pos]),
        Err(ValidationError::BadLinePosition { .. })
    ));
}

#[test]
fn record_move_line_near_the_coordinate_limit() {
    let m = RecordMove { x: 32767, y: -32768, dir: Direction::H, pos: 4 };
    assert_eq!(m.origin(), (32763, -32768));
    assert_eq!(m.line_points(5), vec![(32763, -32768), (32764, -32768), (32765, -32768), (32766, -32768), (32767, -32768)]);
    let far = RecordMove { x: 10, y: 10, dir: Direction::DN, pos: 7 };
    assert_eq!(far.origin(), (3, 3));
    assert_eq!(far.line_points(2), vec![(3, 3), (4, 4)]);
}

#[test]
fn validate_reaches_the_coordinate_limit() {
    let far = RecordMove { x: 32767, y: 0, dir: Direction::H, pos: 4 };
    assert_eq!(
        validate(Variant::T5, &[far]),
        Err(ValidationError::MissingPoint { index: 0, point: (32763, 0) })
    );
    let bad_pos = RecordMove { x: 32767, y: 32767, dir: Direction::DN, pos: 9 };
    assert_eq!(
        validate(Variant::T5, &[bad_pos]),
        Err(ValidationError::BadLinePosition { index: 0, pos: 9 })
    );
}
