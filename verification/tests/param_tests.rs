use vst_viseme::address::Address;
use vst_viseme::last_sent::LastSent;
use vst_viseme::param_map::{add_entry, edit_entries, frame_would_overflow};
use vst_viseme::param_types::{
    names_with_param_type, names_with_param_types, param_type_from_osc, param_type_of_tag,
    type_as_str, type_name_of_tag, OscTypeTag,
};

#[test]
fn viseme_addresses() {
    assert_eq!(Address::Viseme1.as_str(), "/avatar/parameters/Viseme1");
    assert_eq!(Address::Viseme3.as_str(), "/avatar/parameters/Viseme3");
    assert_eq!(Address::Viseme5.as_str(), "/avatar/parameters/Viseme5");
}

#[test]
fn add_entry_to_empty_table_uses_template() {
    let mut entries = vec![];
    assert!(add_entry(&mut entries, (60, 0, "Item1".to_string()), 0, true));
    assert_eq!(entries, vec![(60, 0, "Item1".to_string())]);
}

#[test]
fn add_entry_takes_next_trigger_after_largest() {
    let mut entries = vec![(5u8, 1usize, "a".to_string()), (9, 2, "b".to_string()), (7, 0, "c".to_string())];
    assert!(add_entry(&mut entries, (1, 2, "Float1".to_string()), 0, true));
    assert_eq!(entries[3], (10, 2, "Float1".to_string()));
}

#[test]
fn add_entry_takes_playing_note() {
    let mut entries = vec![(5u8, 1usize, "a".to_string())];
    assert!(add_entry(&mut entries, (60, 0, "Item1".to_string()), 72, true));
    assert_eq!(entries[1], (72, 0, "Item1".to_string()));
}

#[test]
fn add_entry_needs_click_and_room() {
    let mut entries = vec![(5u8, 1usize, "a".to_string())];
    assert!(!add_entry(&mut entries, (60, 0, "Item1".to_string()), 0, false));
    assert_eq!(entries.len(), 1);
    let mut full: Vec<(u8, usize, String)> = (0..128u8).map(|i| (i, 0, "x".to_string())).collect();
    assert!(!add_entry(&mut full, (60, 0, "Item1".to_string()), 0, true));
    assert_eq!(full.len(), 128);
}

#[test]
fn param_types_of_osc_values() {
    assert_eq!(param_type_from_osc(&rosc::OscType::Bool(true)), 0);
    assert_eq!(param_type_from_osc(&rosc::OscType::Int(1)), 1);
    assert_eq!(param_type_from_osc(&rosc::OscType::Float(0.5)), 2);
    assert_eq!(param_type_from_osc(&rosc::OscType::String("s".into())), 3);
    assert_eq!(param_type_of_tag(OscTypeTag::Other), 3);
}

#[test]
fn type_names_of_osc_values() {
    assert_eq!(type_as_str(&rosc::OscType::Int(1)), "Int");
    assert_eq!(type_as_str(&rosc::OscType::Float(1.0)), "Float");
    assert_eq!(type_as_str(&rosc::OscType::String("s".into())), "String");
    assert_eq!(type_as_str(&rosc::OscType::Bool(false)), "Bool");
    assert_eq!(type_as_str(&rosc::OscType::Nil), "Unknown");
    assert_eq!(type_name_of_tag(OscTypeTag::Other), "Unknown");
}

#[test]
fn completion_candidates_filter_by_type() {
    let params = vec![
        ("Float1".to_string(), 2usize),
        ("Int1".to_string(), 1),
        ("Float2".to_string(), 2),
        ("Name".to_string(), 3),
    ];
    assert_eq!(names_with_param_type(&params, 2), vec!["Float1".to_string(), "Float2".to_string()]);
    assert_eq!(names_with_param_type(&params, 0), Vec::<String>::new());
    assert_eq!(names_with_param_type(&params, 3), vec!["Name".to_string()]);
}

#[test]
fn last_sent_keeps_the_latest_per_address() {
    let mut last: LastSent<i32> = LastSent::new();
    let a = "/avatar/parameters/a".to_string();
    let b = "/avatar/parameters/b".to_string();
    assert_eq!(last.previous(&a), None);
    last.record(a.clone(), 1);
    last.record(b.clone(), 2);
    last.record(a.clone(), 3);
    assert_eq!(last.previous(&a), Some(&3));
    assert_eq!(last.previous(&b), Some(&2));
    assert_eq!(last.previous(&"/x".to_string()), None);
}

#[test]
fn frame_deletes_then_adds() {
    let mut entries = vec![
        (5u8, 1usize, "a".to_string()),
        (9, 2, "b".to_string()),
        (7, 0, "c".to_string()),
    ];
    assert!(edit_entries(&mut entries, Some(1), (0, 2, "n".to_string()), 0, true));
    assert_eq!(
        entries,
        vec![(5, 1, "a".to_string()), (7, 0, "c".to_string()), (8, 2, "n".to_string())]
    );
    assert!(!edit_entries(&mut entries, Some(0), (0, 2, "n".to_string()), 0, false));
    assert_eq!(entries, vec![(7, 0, "c".to_string()), (8, 2, "n".to_string())]);
}

#[test]
fn frame_on_a_full_table() {
    let mut full: Vec<(u8, usize, String)> = (0..128u8).map(|i| (i, 0, "x".to_string())).collect();
    assert!(!edit_entries(&mut full, None, (0, 0, "y".to_string()), 0, true));
    assert_eq!(full.len(), 128);
    assert!(edit_entries(&mut full, Some(127), (0, 0, "y".to_string()), 0, true));
    assert_eq!(full.len(), 128);
    assert_eq!(full[127], (127, 0, "y".to_string()));
}

#[test]
fn frame_overflow_check() {
    let entries = vec![(255u8, 0usize, "a".to_string()), (3, 0, "b".to_string())];
    assert!(frame_would_overflow(&entries, None, true));
    assert!(!frame_would_overflow(&entries, None, false));
    assert!(!frame_would_overflow(&entries, Some(0), true));
    assert!(frame_would_overflow(&entries, Some(1), true));
}

#[test]
fn completion_candidates_filter_by_several_types() {
    let params = vec![
        ("Float1".to_string(), 2usize),
        ("Int1".to_string(), 1),
        ("Bool1".to_string(), 0),
        ("Name".to_string(), 3),
        ("Float2".to_string(), 2),
    ];
    assert_eq!(
        names_with_param_types(&params, &vec![1, 2]),
        vec!["Float1".to_string(), "Int1".to_string(), "Float2".to_string()]
    );
    assert_eq!(
        names_with_param_types(&params, &vec![0, 1, 2]),
        vec![
            "Float1".to_string(),
            "Int1".to_string(),
            "Bool1".to_string(),
            "Float2".to_string()
        ]
    );
    assert_eq!(names_with_param_types(&params, &vec![]), Vec::<String>::new());
    assert_eq!(names_with_param_types(&params, &vec![3]), vec!["Name".to_string()]);
}
