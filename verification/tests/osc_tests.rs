use vst_viseme::osc::{
    cc_messages, float_pairs_to_compare, name_to_address, new_cc_message, new_float_message,
    new_note_off_message, new_note_on_message, note_off_messages, note_on_messages,
    parameter_name_is_decodable, receive_parameter, try_get_name, OscArg, OscMessage,
};

fn message(addr: &str, arg: OscArg) -> OscMessage {
    OscMessage {
        addr: addr.to_string(),
        args: vec![arg],
    }
}

fn udp_packet(addr: &str, args: Vec<rosc::OscType>) -> Vec<u8> {
    let packet = rosc::OscPacket::Message(rosc::OscMessage {
        addr: addr.to_string(),
        args,
    });
    rosc::encoder::encode(&packet).unwrap()
}

#[test]
fn address_of_ascii_name() {
    assert_eq!(name_to_address("Float1"), "/avatar/parameters/Float1");
    assert_eq!(name_to_address(""), "/avatar/parameters/");
}

#[test]
fn address_of_non_ascii_name_is_escaped() {
    assert_eq!(
        name_to_address("テスト"),
        r"/avatar/parameters/\u30c6\u30b9\u30c8"
    );
}

#[test]
fn name_is_read_back_from_address() {
    assert_eq!(
        try_get_name(r"/avatar/parameters/\u30c6\u30b9\u30c8"),
        Some("テスト".to_string())
    );
    assert_eq!(try_get_name("/avatar/parameters/Viseme"), Some("Viseme".to_string()));
    assert_eq!(try_get_name("/avatar/parameters/"), Some(String::new()));
    assert_eq!(try_get_name("/avatar/parameter/x"), None);
    assert_eq!(try_get_name("/other/x"), None);
    assert_eq!(try_get_name(""), None);
}

#[test]
fn address_name_roundtrip_on_samples() {
    for name in ["Item1", "漢字", "✨🥹", "a b/c", ""] {
        let addr = name_to_address(name);
        assert!(parameter_name_is_decodable(&addr));
        assert_eq!(try_get_name(&addr), Some(name.to_string()));
    }
}

#[test]
fn decodable_check() {
    assert!(parameter_name_is_decodable("/avatar/parameters/x"));
    assert!(parameter_name_is_decodable("/elsewhere/\\u123é"));
    assert!(!parameter_name_is_decodable("/avatar/parameters/\\u123é"));
}

#[test]
fn float_message() {
    let bits = 0.25f32.to_bits();
    assert_eq!(
        new_float_message("Volume1", bits),
        message("/avatar/parameters/Volume1", OscArg::Float(bits))
    );
}

#[test]
fn note_on_message_per_param_type() {
    let bits = 0.5f32.to_bits();
    assert_eq!(
        new_note_on_message("A", &0, 64, bits),
        message("/avatar/parameters/A", OscArg::Bool(true))
    );
    assert_eq!(
        new_note_on_message("A", &1, 64, bits),
        message("/avatar/parameters/A", OscArg::Int(64))
    );
    assert_eq!(
        new_note_on_message("A", &2, 64, bits),
        message("/avatar/parameters/A", OscArg::Float(bits))
    );
}

#[test]
fn note_off_message_per_param_type() {
    assert_eq!(
        new_note_off_message("A", &0),
        message("/avatar/parameters/A", OscArg::Bool(false))
    );
    assert_eq!(
        new_note_off_message("A", &1),
        message("/avatar/parameters/A", OscArg::Int(0))
    );
    assert_eq!(
        new_note_off_message("A", &2),
        message("/avatar/parameters/A", OscArg::Float(0.0f32.to_bits()))
    );
}

#[test]
fn cc_message_per_param_type() {
    let bits = 1.0f32.to_bits();
    assert_eq!(
        new_cc_message("Float1", &1, 127, bits),
        message("/avatar/parameters/Float1", OscArg::Int(127))
    );
    assert_eq!(
        new_cc_message("Float1", &2, 127, bits),
        message("/avatar/parameters/Float1", OscArg::Float(bits))
    );
}

#[test]
fn note_events_reach_only_mapped_named_entries() {
    let entries = vec![
        (60u8, 0usize, "Item1".to_string()),
        (61, 1, "Item2".to_string()),
        (60, 1, "".to_string()),
        (60, 2, "漢".to_string()),
    ];
    let bits = 0.75f32.to_bits();
    assert_eq!(
        note_on_messages(&entries, 60, 95, bits),
        vec![
            message("/avatar/parameters/Item1", OscArg::Bool(true)),
            message(r"/avatar/parameters/\u6f22", OscArg::Float(bits)),
        ]
    );
    assert_eq!(
        note_off_messages(&entries, 61),
        vec![message("/avatar/parameters/Item2", OscArg::Int(0))]
    );
    assert_eq!(note_off_messages(&entries, 62), vec![]);
}

#[test]
fn cc_events_reach_only_mapped_named_entries() {
    let entries = vec![(1u8, 2usize, "Float1".to_string()), (2, 1, "Int1".to_string())];
    let bits = 0.5f32.to_bits();
    assert_eq!(
        cc_messages(&entries, 2, 64, bits),
        vec![message("/avatar/parameters/Int1", OscArg::Int(64))]
    );
    assert_eq!(
        cc_messages(&entries, 1, 64, bits),
        vec![message("/avatar/parameters/Float1", OscArg::Float(bits))]
    );
}

#[test]
fn parameter_update_is_read_from_a_packet() {
    let packet = udp_packet(
        r"/avatar/parameters/\u30c6",
        vec![rosc::OscType::Int(3), rosc::OscType::Bool(true)],
    );
    let (name, value) = receive_parameter(&packet).unwrap();
    assert_eq!(name, "テ");
    assert_eq!(value, rosc::OscType::Int(3));
}

#[test]
fn packets_that_are_not_parameter_updates_are_ignored() {
    assert!(receive_parameter(&udp_packet("/other/x", vec![rosc::OscType::Int(1)])).is_none());
    assert!(receive_parameter(&udp_packet("/avatar/parameters/x", vec![])).is_none());
    assert!(receive_parameter(&[1, 2, 3]).is_none());
    let bundle = rosc::OscPacket::Bundle(rosc::OscBundle {
        timetag: rosc::OscTime::from((0, 1)),
        content: vec![],
    });
    assert!(receive_parameter(&rosc::encoder::encode(&bundle).unwrap()).is_none());
}

#[test]
fn note_off_reaches_the_same_parameters_as_note_on() {
    let entries = vec![
        (64u8, 2usize, "Float1".to_string()),
        (64, 0, "Bool1".to_string()),
        (65, 1, "Int1".to_string()),
        (64, 1, "Int2".to_string()),
    ];
    let on = note_on_messages(&entries, 64, 100, 0.8f32.to_bits());
    let off = note_off_messages(&entries, 64);
    assert_eq!(on.len(), 3);
    let on_addrs: Vec<&String> = on.iter().map(|m| &m.addr).collect();
    let off_addrs: Vec<&String> = off.iter().map(|m| &m.addr).collect();
    assert_eq!(on_addrs, off_addrs);
}

#[test]
fn decode_message_gives_address_and_all_arguments() {
    let args = vec![rosc::OscType::Float(0.5), rosc::OscType::Int(7)];
    let packet = udp_packet("/avatar/parameters/x", args.clone());
    assert_eq!(
        vst_viseme::osc::decode_message(&packet),
        Some(("/avatar/parameters/x".to_string(), args))
    );
    assert_eq!(vst_viseme::osc::decode_message(&[0, 1]), None);
}

#[test]
fn parameter_update_carries_the_first_argument() {
    let packet = udp_packet(
        "/avatar/parameters/v",
        vec![rosc::OscType::Bool(false), rosc::OscType::Int(9)],
    );
    assert_eq!(
        receive_parameter(&packet),
        Some(("v".to_string(), rosc::OscType::Bool(false)))
    );
}

#[test]
fn repeated_message_comparison() {
    let a = OscMessage {
        addr: "/avatar/parameters/x".to_string(),
        args: vec![OscArg::Int(3), OscArg::Float(1.0f32.to_bits()), OscArg::Bool(true)],
    };
    let b = OscMessage {
        addr: "/avatar/parameters/x".to_string(),
        args: vec![OscArg::Int(3), OscArg::Float(0.5f32.to_bits()), OscArg::Bool(true)],
    };
    assert_eq!(
        float_pairs_to_compare(&a, &b),
        Some(vec![(1.0f32.to_bits(), 0.5f32.to_bits())])
    );
    assert_eq!(
        float_pairs_to_compare(&a, &a),
        Some(vec![(1.0f32.to_bits(), 1.0f32.to_bits())])
    );
    let other_addr = OscMessage { addr: "/avatar/parameters/y".to_string(), args: b.args.clone() };
    assert_eq!(float_pairs_to_compare(&a, &other_addr), None);
    let other_int = message("/avatar/parameters/x", OscArg::Int(4));
    let one_int = message("/avatar/parameters/x", OscArg::Int(3));
    assert_eq!(float_pairs_to_compare(&one_int, &other_int), None);
    assert_eq!(float_pairs_to_compare(&one_int, &one_int), Some(vec![]));
    let as_bool = message("/avatar/parameters/x", OscArg::Bool(true));
    assert_eq!(float_pairs_to_compare(&one_int, &as_bool), None);
    assert_eq!(float_pairs_to_compare(&a, &one_int), None);
    let false_bool = message("/avatar/parameters/x", OscArg::Bool(false));
    assert_eq!(float_pairs_to_compare(&as_bool, &false_bool), None);
}
