use morpion_solitaire::record::codec::{decode_payload, encode_envelope, CodecError, Payload, PREFIX};

#[test]
fn envelope_roundtrips() {
    let json = br#"{"version":"0.1","variant":"5T","score":0,"moves":[]}"#;
    let text = encode_envelope(json);
    assert!(text.starts_with(PREFIX));
    match decode_payload(&text) {
        Ok(Payload::Compact(bytes)) => assert_eq!(bytes, json.to_vec()),
        _ => panic!("the compact form must open"),
    }
    // Surrounding whitespace is ignored.
    match decode_payload(&format!("\n {text} \t")) {
        Ok(Payload::Compact(bytes)) => assert_eq!(bytes, json.to_vec()),
        _ => panic!("the compact form must open"),
    }
}

#[test]
fn plain_json_passes_through_trimmed() {
    match decode_payload("  {\"version\":1}\n") {
        Ok(Payload::Json(s)) => assert_eq!(s, "{\"version\":1}"),
        _ => panic!("plain JSON is its own payload"),
    }
}

#[test]
fn envelope_errors() {
    assert!(matches!(decode_payload("MS1:***"), Err(CodecError::Base64(_))));
    assert!(matches!(decode_payload("MS1:AAAA"), Err(CodecError::Inflate(_))));
    assert_eq!(PREFIX, "MS1:");
}
