use morpion_solitaire::cli::ascii_board;
use morpion_solitaire::game::moves::legal_moves;
use morpion_solitaire::game::rules::Variant;
use morpion_solitaire::game::state::GameState;

fn rows(s: &str) -> Vec<&str> {
    s.lines().collect()
}

#[test]
fn ascii_board_initial_cross() {
    let st = GameState::new(Variant::T5);
    let (min_x, min_y, max_x, max_y) = st.bounding_box().unwrap();
    let text = ascii_board(&st, false);
    let r = rows(&text);
    assert_eq!(r.len() as i16, max_y - min_y + 3);
    for row in &r {
        assert_eq!(row.chars().count() as i16, 2 * (max_x - min_x + 3));
    }
    assert!(r[0].chars().all(|c| c == '.' || c == ' '));
    assert_eq!(text.matches('+').count(), 36);
    assert_eq!(text.matches('@').count(), 0);
    assert!(text.ends_with('\n'));
}

#[test]
fn ascii_board_marks_last_and_played_moves() {
    let mut st = GameState::new(Variant::T5);
    let m1 = legal_moves(&st)[0];
    st.apply(m1);
    let m2 = legal_moves(&st)[0];
    st.apply(m2);
    let plain = ascii_board(&st, false);
    assert_eq!(plain.matches('@').count(), 1);
    assert_eq!(plain.matches('O').count(), 1);
    assert_eq!(plain.matches('+').count(), 36);
    let numbered = ascii_board(&st, true);
    assert_eq!(numbered.matches("  1").count(), 1);
    assert_eq!(numbered.matches("  2").count(), 1);
    assert_eq!(numbered.matches('@').count(), 0);
    assert_eq!(numbered.matches("  +").count(), 36);
    let (min_x, _, max_x, _) = st.bounding_box().unwrap();
    for row in rows(&numbered) {
        assert_eq!(row.chars().count() as i16, 3 * (max_x - min_x + 3));
    }
}
