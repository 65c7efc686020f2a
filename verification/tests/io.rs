use morpion_solitaire::game::io::{
    checkpoint_envelope, checkpoint_payload, civil_from_days, default_algo_tag, dir_from_msr,
    dir_to_msr, export_pentasol, format_iso8601, import_pentasol, move_to_record, pentasol_offset,
    record_to_move, variant_from_msr, variant_to_msr,
};
use morpion_solitaire::game::line::Dir;
use morpion_solitaire::game::moves::legal_moves;
use morpion_solitaire::game::rules::Variant;
use morpion_solitaire::game::state::GameState;
use morpion_solitaire::record::model::{Direction, Variant as RecordVariant};

fn play_n(variant: Variant, n: usize) -> GameState {
    let mut state = GameState::new(variant);
    for _ in 0..n {
        let moves = legal_moves(&state);
        if moves.is_empty() {
            break;
        }
        state.apply(moves[0]);
    }
    state
}

#[test]
fn pentasol_roundtrip_5t() {
    let original = play_n(Variant::T5, 8);
    let text = export_pentasol(&original);
    let restored = import_pentasol(&text, Variant::T5).unwrap();
    assert_eq!(restored.score(), original.score());
    assert_eq!(restored.history, original.history);
}

#[test]
fn pentasol_roundtrip_5d() {
    let original = play_n(Variant::D5, 8);
    let text = export_pentasol(&original);
    let restored = import_pentasol(&text, Variant::D5).unwrap();
    assert_eq!(restored.score(), original.score());
}

#[test]
fn pentasol_text_format() {
    let st = play_n(Variant::T5, 1);
    let mv = st.history[0];
    let text = export_pentasol(&st);
    let expected_cd = mv.line_pos as i8 - 2;
    let dir = match mv.line.dir {
        Dir::H => '-',
        Dir::V => '|',
        Dir::DP => '/',
        Dir::DN => '\\',
    };
    assert_eq!(text, format!("({},{}){}{:+}", mv.pos.0 + 1, mv.pos.1 + 1, dir, expected_cd));
    assert_eq!(export_pentasol(&GameState::new(Variant::T5)), "");
    assert_eq!(pentasol_offset(Variant::T4), (1, 1));
}

#[test]
fn pentasol_import_skips_blanks_and_comments() {
    let st = play_n(Variant::T5, 3);
    let body = export_pentasol(&st);
    let text = format!("# a comment\n\n  {}  \r\n", body.replace('\n', "\r\n"));
    let restored = import_pentasol(&text, Variant::T5).unwrap();
    assert_eq!(restored.history, st.history);
}

#[test]
fn pentasol_import_errors_name_the_line() {
    let e = |t: &str| import_pentasol(t, Variant::T5).err().unwrap();
    assert_eq!(e("(1,2"), "line 1: missing ')'");
    assert_eq!(e("# x\n1,2)"), "line 2: expected '(' at start, got: 1,2)");
    assert_eq!(e("(12)-0"), "line 1: missing ',' in coordinates");
    assert_eq!(e("(a,2)-0"), "line 1: bad column");
    assert_eq!(e("(1,99999)-0"), "line 1: bad row");
    assert_eq!(e("(1,2)"), "line 1: missing direction");
    assert_eq!(e("(1,2)x0"), "line 1: unknown direction char: x");
    assert_eq!(e("(1,2)-+"), "line 1: bad centerdist");
    assert_eq!(e("\n\n(1,2)-9000"), "line 3: bad centerdist");
}

#[test]
fn pentasol_parses_signs_and_spaces_in_coordinates() {
    // "( 5 , 4 )" with spaces inside the coordinates; no centerdist means 0.
    let st = import_pentasol("( 0 , 4 )-", Variant::T5).unwrap();
    assert_eq!(st.history.len(), 1);
    let mv = st.history[0];
    assert_eq!(mv.pos, (-1, 3));
    assert_eq!(mv.line_pos, 2);
    assert_eq!(mv.line.origin, (-3, 3));
    let st2 = import_pentasol("(0,4)-+2", Variant::T5).unwrap();
    assert_eq!(st2.history[0].line_pos, 4);
    assert_eq!(st2.history[0].line.origin, (-5, 3));
}

#[test]
fn iso8601_and_civil_dates() {
    assert_eq!(format_iso8601(1_700_000_000), "2023-11-14T22:13:20Z");
    assert_eq!(format_iso8601(0), "1970-01-01T00:00:00Z");
    assert_eq!(format_iso8601(951_782_400), "2000-02-29T00:00:00Z");
    assert_eq!(civil_from_days(0), (1970, 1, 1));
    assert_eq!(civil_from_days(-1), (1969, 12, 31));
    assert_eq!(civil_from_days(19_675), (2023, 11, 14));
    assert_eq!(civil_from_days(-719_468), (0, 3, 1));
}

#[test]
fn record_conversions() {
    for d in Dir::all() {
        assert_eq!(dir_from_msr(dir_to_msr(d)), d);
    }
    assert_eq!(dir_to_msr(Dir::DP), Direction::DP);
    for v in Variant::all() {
        assert_eq!(variant_from_msr(variant_to_msr(v)), v);
    }
    assert_eq!(variant_to_msr(Variant::D4), RecordVariant::D4);
    let st = play_n(Variant::T5, 5);
    for mv in &st.history {
        let rm = move_to_record(mv);
        assert_eq!((rm.x, rm.y, rm.pos), (mv.pos.0, mv.pos.1, mv.line_pos));
        assert_eq!(record_to_move(&rm), *mv);
    }
}

#[test]
fn checkpoint_envelope_roundtrips() {
    let json = br#"{"version":1,"variant":"5T","frontier":[]}"#;
    let text = checkpoint_envelope(json);
    assert!(text.starts_with("MSC1:"));
    assert_eq!(checkpoint_payload(&text).unwrap(), json.to_vec());
    assert_eq!(checkpoint_payload(&format!("  {text}\n")).unwrap(), json.to_vec());
    assert_eq!(
        checkpoint_payload("MS1:abc").err().unwrap(),
        "not a search checkpoint (missing MSC1: tag)"
    );
    assert!(checkpoint_payload("MSC1:!!!").err().unwrap().starts_with("base64: "));
    assert!(checkpoint_payload("MSC1:AAAA").err().unwrap().starts_with("inflate: "));
    assert_eq!(default_algo_tag(), "systematic");
}
