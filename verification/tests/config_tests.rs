use vst_viseme::config::{export_fields, export_json, import_fields};

fn pairs(items: &[(&str, &str)]) -> Vec<(String, String)> {
    items
        .iter()
        .map(|(k, v)| (k.to_string(), v.to_string()))
        .collect()
}

#[test]
fn import_reads_object_fields_in_key_order() {
    let data = br#"{"midi-addresses": [[60, 0, "Item1"]], "audio-address": "Volume1"}"#;
    assert_eq!(
        import_fields(data).unwrap(),
        pairs(&[
            ("audio-address", r#""Volume1""#),
            ("midi-addresses", r#"[[60,0,"Item1"]]"#),
        ])
    );
}

#[test]
fn import_rejects_what_is_not_an_object() {
    let err = import_fields(b"[1, 2]").unwrap_err();
    assert!(err.starts_with("Invalid json: "), "{err}");
    let err = import_fields(b"{ not json").unwrap_err();
    assert!(err.starts_with("Invalid json: "), "{err}");
    assert_eq!(import_fields(b"{}").unwrap(), vec![]);
}

#[test]
fn export_drops_editor_state_and_invalid_values() {
    let fields = pairs(&[
        ("audio-address", r#""Volume1""#),
        ("editor-state", r#"{"size":[350,400]}"#),
        ("broken", "{nope"),
        ("cc-addresses", r#"[[1,2,"Float1"]]"#),
    ]);
    assert_eq!(
        export_fields(&fields),
        pairs(&[
            ("audio-address", r#""Volume1""#),
            ("cc-addresses", r#"[[1,2,"Float1"]]"#),
        ])
    );
}

#[test]
fn export_writes_pretty_json() {
    let fields = pairs(&[("b", "1"), ("editor-state", "2"), ("a", r#""x""#)]);
    assert_eq!(export_json(&fields).unwrap(), "{\n  \"a\": \"x\",\n  \"b\": 1\n}");
    assert_eq!(export_json(&vec![]).unwrap(), "{}");
}

#[test]
fn export_then_import_gives_the_fields_back() {
    let fields = pairs(&[("a", "[1,2]"), ("b", r#"{"c":true}"#)]);
    let json = export_json(&fields).unwrap();
    assert_eq!(import_fields(json.as_bytes()).unwrap(), fields);
}
