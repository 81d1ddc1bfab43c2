use league_client::message::{subscribe_frame, unsubscribe_frame, EventType, Incoming, Message};

#[test]
fn core_test_message() {
    let raw = r#"[8,"OnJsonApiEvent",{
            "data":{},
            "eventType":"Update",
            "uri":"/lol-champ-select/v1/skin-selector-info"
            }]"#;

    let data: Incoming = Incoming::decode(raw).expect("should have a new message");
    let msg = data.into_message();
    assert_eq!(msg.event_type, EventType::Update);
    assert_eq!(
        msg.uri,
        "/lol-champ-select/v1/skin-selector-info".to_string()
    );
}

#[test]
fn message_test_message() {
    let raw = r#"[8,"OnJsonApiEvent",{
            "data":{},
            "eventType":"Update",
            "uri":"/lol-champ-select/v1/skin-selector-info"
            }]"#;

    let data: Incoming = Incoming::decode(raw).expect("should have a new message");
    let _msg = data.2.clone();
}

#[test]
fn scenario_wire_update_event() {
    let raw = r#"[8,"OnJsonApiEvent",{"data":{},"eventType":"Update","uri":"/lol-champ-select/v1/skin-selector-info"}]"#;
    let ev = Incoming::decode(raw).expect("well-formed envelope");
    assert_eq!(ev.0, 8);
    assert_eq!(ev.1, "OnJsonApiEvent".to_string());
    assert_eq!(ev.2.event_type, EventType::Update);
    assert_eq!(ev.2.uri, "/lol-champ-select/v1/skin-selector-info".to_string());
    assert_eq!(ev.2.data, "{}".to_string());
}

#[test]
fn decode_encode_decode_round_trip() {
    let raw = r#"[3,"OnJsonApiEvent",{"uri":"/a/b","data":{"k":[1,2.5,null,true,"x"]},"eventType":"Create"}]"#;
    let first = Incoming::decode(raw).expect("decodes");
    let encoded = first.encode();
    let second = Incoming::decode(&encoded).expect("re-decodes");
    assert_eq!(second.0, first.0);
    assert_eq!(second.1, first.1);
    assert_eq!(second.2.event_type, first.2.event_type);
    assert_eq!(second.2.uri, first.2.uri);
    assert_eq!(second.2.data, first.2.data);
    let third = second.encode();
    assert_eq!(encoded, third);
}

#[test]
fn unknown_event_type_decodes_to_unknown() {
    let raw = r#"[8,"c",{"data":null,"eventType":"Reticulate","uri":"/x"}]"#;
    let ev = Incoming::decode(raw).expect("envelope stays decodable");
    assert_eq!(ev.2.event_type, EventType::Unknown);
    assert_eq!(EventType::from_name("Bogus"), EventType::Unknown);
    assert_eq!(EventType::from_name(""), EventType::Unknown);
    assert_eq!(EventType::from_name("create"), EventType::Unknown);
    assert_eq!(EventType::from_name("Create"), EventType::Create);
    assert_eq!(EventType::from_name("Delete"), EventType::Delete);
    assert_eq!(EventType::from_name("Update"), EventType::Update);
}

#[test]
fn malformed_frames_do_not_decode() {
    assert!(Incoming::decode("").is_none());
    assert!(Incoming::decode("garbage").is_none());
    assert!(Incoming::decode("[1,\"x\"]").is_none());
    assert!(Incoming::decode("[1,\"x\",{}]").is_none());
    assert!(Incoming::decode(r#"[1,"x",{"data":{},"eventType":"Update"}]"#).is_none());
    assert!(Incoming::decode(r#"[1,"x",{"data":{},"eventType":"Update","uri":"/a"}] trailing"#)
        .is_none());
    assert!(Incoming::decode(r#"[1,"x",{"data":{},"data":{},"eventType":"Update","uri":"/a"}]"#)
        .is_none());
    assert!(Incoming::decode(r#"[-1,"x",{"data":{},"eventType":"Update","uri":"/a"}]"#).is_none());
    assert!(Incoming::decode(r#"[05,"x",{"data":{},"eventType":"Update","uri":"/a"}]"#).is_none());
    assert!(Incoming::decode(r#"[1,"x",{"data":{,},"eventType":"Update","uri":"/a"}]"#).is_none());
    assert!(
        Incoming::decode(r#"[99999999999999999999999,"x",{"data":{},"eventType":"Update","uri":"/a"}]"#)
            .is_none()
    );
}

#[test]
fn extra_payload_fields_are_ignored() {
    let raw = r#"[0,"c",{"other":[{"deep":{"a":[]}},false],"data":12,"eventType":"Delete","uri":"","more":"y"}]"#;
    let ev = Incoming::decode(raw).expect("extra fields ignored");
    assert_eq!(ev.0, 0);
    assert_eq!(ev.2.event_type, EventType::Delete);
    assert_eq!(ev.2.data, "12".to_string());
    assert_eq!(ev.2.uri, "".to_string());
}

#[test]
fn string_escapes_decode() {
    let raw = r#"[7,"ch\"an\\nel",{"data":"A\n","eventType":"Create","uri":"\té"}]"#;
    let ev = Incoming::decode(raw).expect("escapes are understood");
    assert_eq!(ev.1, "ch\"an\\nel".to_string());
    assert_eq!(ev.2.uri, "\t\u{e9}".to_string());
    // the data span keeps its wire text verbatim
    assert_eq!(ev.2.data, r#""A\n""#.to_string());
}

#[test]
fn unicode_escapes_decode() {
    let raw = r#"[1,"\u0041\u00e9",{"data":0,"eventType":"Create","uri":"\u0009"}]"#;
    let ev = Incoming::decode(raw).expect("unicode escapes decode");
    assert_eq!(ev.1, "A\u{e9}".to_string());
    assert_eq!(ev.2.uri, "\t".to_string());
    // a lone surrogate escape is refused
    let raw = r#"[1,"\ud800",{"data":0,"eventType":"Create","uri":""}]"#;
    assert!(Incoming::decode(raw).is_none());
}

#[test]
fn control_frames_have_vendor_opcodes() {
    assert_eq!(subscribe_frame("OnJsonApiEvent"), "[5,\"OnJsonApiEvent\"]".to_string());
    assert_eq!(unsubscribe_frame("OnJsonApiEvent"), "[6,\"OnJsonApiEvent\"]".to_string());
    assert_eq!(unsubscribe_frame("a\"b"), "[6,\"a\\\"b\"]".to_string());
}

#[test]
fn encode_is_canonical() {
    let ev = Incoming(
        8,
        "ch".to_string(),
        Message {
            data: "{}".to_string(),
            event_type: EventType::Update,
            uri: "/a".to_string(),
        },
    );
    assert_eq!(
        ev.encode(),
        r#"[8,"ch",{"data":{},"eventType":"Update","uri":"/a"}]"#.to_string()
    );
}

#[test]
fn default_message_is_null_data() {
    let m = Message::default();
    assert_eq!(m.data, "null".to_string());
    assert_eq!(m.event_type, EventType::Unknown);
    assert_eq!(m.uri, "".to_string());
}

#[test]
fn whitespace_is_insignificant() {
    let raw = "\n [ 12 ,\t\"c\" , { \"data\" : [ ] , \"eventType\" : \"Create\" , \"uri\" : \"\" } ] \r\n";
    let ev = Incoming::decode(raw).expect("whitespace tolerated");
    assert_eq!(ev.0, 12);
    assert_eq!(ev.2.event_type, EventType::Create);
    assert_eq!(ev.2.data, "[ ]".to_string());
}
