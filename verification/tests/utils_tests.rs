use vst_viseme::utils::{
    decode_unicode_escapes, encode_unicode_escapes, escapes_are_sliceable, note_friendly_name,
};

#[test]
fn test_note_friendly_name() {
    assert_eq!(note_friendly_name(&0), "C-2");
    assert_eq!(note_friendly_name(&12), "C-1");
    assert_eq!(note_friendly_name(&60), "C3");
    assert_eq!(note_friendly_name(&69), "A3");
    assert_eq!(note_friendly_name(&127), "G8");
}

const CASES: &[(&str, &str)] = &[
    (r"\u30c6\u30b9\u30c8", "テスト"),
    ("hello", "hello"),
    (
        r"This is \u30c6\u30b9\u30c8 for \u6f22\u5b57",
        "This is テスト for 漢字",
    ),
    (r"\u2728\ud83e\udd79", "✨🥹"),
    (r"\u2728\ud83e", r"✨\ud83e"),
    ("", ""),
];

#[test]
fn test_decode_unicode_escapes() {
    for &(encoded, decoded) in CASES {
        assert_eq!(decode_unicode_escapes(encoded), decoded,);
    }
}

#[test]
fn test_encode_unicode_escapes() {
    for &(encoded, decoded) in CASES {
        assert_eq!(encode_unicode_escapes(decoded), encoded,);
    }
}

#[test]
fn note_names_cover_every_pitch_class() {
    let expected = ["C", "C#", "D", "D#", "E", "F", "F#", "G", "G#", "A", "A#", "B"];
    for (i, name) in expected.iter().enumerate() {
        assert_eq!(note_friendly_name(&(48 + i as u8)), format!("{name}2"));
    }
}

#[test]
fn note_names_above_the_midi_range() {
    assert_eq!(note_friendly_name(&128), "G#8");
    assert_eq!(note_friendly_name(&144), "C10");
    assert_eq!(note_friendly_name(&255), "D#19");
    assert_eq!(note_friendly_name(&23), "B-1");
    assert_eq!(note_friendly_name(&24), "C0");
}

#[test]
fn decode_accepts_uppercase_and_plus_fields() {
    assert_eq!(decode_unicode_escapes(r"\u30C6"), "テ");
    assert_eq!(decode_unicode_escapes(r"\u+041"), "A");
    assert_eq!(decode_unicode_escapes(r"\u-041"), r"\u-041");
    assert_eq!(decode_unicode_escapes(r"\u++41"), r"\u++41");
}

#[test]
fn decode_keeps_malformed_escapes() {
    assert_eq!(decode_unicode_escapes(r"\u12"), r"\u12");
    assert_eq!(decode_unicode_escapes(r"\u12g4x"), r"\u12g4x");
    assert_eq!(decode_unicode_escapes(r"\\u0041"), r"\A");
    assert_eq!(decode_unicode_escapes(r"a\u"), r"a\u");
}

#[test]
fn decode_keeps_lone_surrogates_as_written() {
    assert_eq!(decode_unicode_escapes(r"\udd79\ud83e"), r"\udd79\ud83e");
    assert_eq!(decode_unicode_escapes(r"\uD83Ex"), r"\uD83Ex");
    assert_eq!(decode_unicode_escapes(r"\ud83e\u0041"), r"\ud83eA");
    assert_eq!(decode_unicode_escapes(r"\ud83e\ud83e\udd79"), r"\ud83e🥹");
}

#[test]
fn decode_of_text_without_escapes_is_identity() {
    for s in ["", "plain", "漢字 and ✨", r"back\slash", "u1234"] {
        assert_eq!(decode_unicode_escapes(s), s);
    }
}

#[test]
fn encode_of_ascii_is_identity() {
    for s in ["", "Float1", "/avatar/parameters/x", r"\u0041"] {
        assert_eq!(encode_unicode_escapes(s), s);
    }
}

#[test]
fn encode_uses_lowercase_four_digit_escapes() {
    assert_eq!(encode_unicode_escapes("é"), r"\u00e9");
    assert_eq!(encode_unicode_escapes("\u{80}"), r"\u0080");
    assert_eq!(encode_unicode_escapes("\u{FFFF}"), r"\uffff");
    assert_eq!(encode_unicode_escapes("\u{10000}"), r"\ud800\udc00");
    assert_eq!(encode_unicode_escapes("\u{10FFFF}"), r"\udbff\udfff");
}

#[test]
fn decode_encode_roundtrip_on_samples() {
    for s in ["テスト", "mixed ✨🥹 text", "é\\", "\\é", "\u{10000}\u{FFFF}\u{80}"] {
        let encoded = encode_unicode_escapes(s);
        assert!(encoded.is_ascii());
        assert!(escapes_are_sliceable(&encoded));
        assert_eq!(decode_unicode_escapes(&encoded), s);
    }
}

#[test]
fn sliceable_check_matches_byte_boundaries() {
    assert!(escapes_are_sliceable(r"\u30c6"));
    assert!(escapes_are_sliceable(r"\u12"));
    assert!(escapes_are_sliceable("\\u1é"));
    assert!(escapes_are_sliceable("\\u12é"));
    assert!(escapes_are_sliceable("\\uéé"));
    assert!(!escapes_are_sliceable("\\u123é"));
    assert!(!escapes_are_sliceable("\\uabcé"));
    assert!(escapes_are_sliceable("x\\u漢x"));
    assert!(!escapes_are_sliceable("x\\u漢é"));
    assert!(escapes_are_sliceable("漢字"));
}

#[test]
fn every_note_has_its_own_name() {
    let names: Vec<String> = (0..=255u8).map(|n| note_friendly_name(&n)).collect();
    for a in 0..names.len() {
        for b in (a + 1)..names.len() {
            assert_ne!(names[a], names[b]);
        }
    }
    assert_eq!(note_friendly_name(&255), "D#19");
}
