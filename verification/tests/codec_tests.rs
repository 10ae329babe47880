use chat_core::codec::decode;
use chat_core::codec::decode_chat;
use chat_core::codec::encode;
use chat_core::codec::encode_chat;
use chat_core::codec::DecodeError;
use chat_core::codec::Envelope;
use chat_core::codec::MsgTypes;

fn users_envelope(names: &[&str]) -> Envelope {
    Envelope {
        kind: MsgTypes::Users,
        data: None,
        data_list: Some(names.iter().map(|s| s.to_string()).collect()),
    }
}

#[test]
fn encode_register_canonical() {
    let e = Envelope { kind: MsgTypes::Register, data: Some("alice".to_string()), data_list: None };
    assert_eq!(encode(&e), "{\"messageType\":\"register\",\"data\":\"alice\"}");
}

#[test]
fn encode_users_canonical() {
    let e = users_envelope(&["alice", "bob"]);
    assert_eq!(encode(&e), "{\"messageType\":\"users\",\"dataArray\":[\"alice\",\"bob\"]}");
}

#[test]
fn encode_chat_canonical() {
    assert_eq!(encode_chat("bob", "hi"), "{\"from\":\"bob\",\"message\":\"hi\"}");
}

#[test]
fn round_trip_users() {
    let e = users_envelope(&["alice", "bob", "alice"]);
    let back = decode(&encode(&e)).unwrap();
    assert_eq!(back.kind, MsgTypes::Users);
    assert_eq!(back.data, None);
    assert_eq!(back.data_list, Some(vec!["alice".to_string(), "bob".to_string(), "alice".to_string()]));
}

#[test]
fn round_trip_empty_roster() {
    let e = users_envelope(&[]);
    let back = decode(&encode(&e)).unwrap();
    assert_eq!(back.kind, MsgTypes::Users);
    assert_eq!(back.data, None);
    assert_eq!(back.data_list, Some(vec![]));
}

#[test]
fn round_trip_message() {
    let e = Envelope {
        kind: MsgTypes::Message,
        data: Some("{\"from\":\"bob\",\"message\":\"hi\"}".to_string()),
        data_list: None,
    };
    let back = decode(&encode(&e)).unwrap();
    assert_eq!(back.kind, MsgTypes::Message);
    assert_eq!(back.data, Some("{\"from\":\"bob\",\"message\":\"hi\"}".to_string()));
    assert_eq!(back.data_list, None);
}

#[test]
fn round_trip_with_escapes() {
    let e = Envelope {
        kind: MsgTypes::Register,
        data: Some("a\"b\\c".to_string()),
        data_list: None,
    };
    let text = encode(&e);
    assert_eq!(text, "{\"messageType\":\"register\",\"data\":\"a\\\"b\\\\c\"}");
    let back = decode(&text).unwrap();
    assert_eq!(back.data, Some("a\"b\\c".to_string()));
}

#[test]
fn decode_accepts_any_field_order() {
    let back = decode("{\"data\":\"x\",\"messageType\":\"register\"}").unwrap();
    assert_eq!(back.kind, MsgTypes::Register);
    assert_eq!(back.data, Some("x".to_string()));
}

#[test]
fn decode_ignores_unknown_fields() {
    let back = decode("{\"messageType\":\"register\",\"extra\":\"y\",\"data\":\"x\"}").unwrap();
    assert_eq!(back.kind, MsgTypes::Register);
    assert_eq!(back.data, Some("x".to_string()));
}

#[test]
fn decode_missing_fields_are_absent() {
    let back = decode("{\"messageType\":\"users\"}").unwrap();
    assert_eq!(back.kind, MsgTypes::Users);
    assert_eq!(back.data, None);
    assert_eq!(back.data_list, None);
}

#[test]
fn decode_null_fields_are_absent() {
    let back = decode("{\"messageType\":\"register\",\"dataArray\":null,\"data\":\"alice\"}")
        .unwrap();
    assert_eq!(back.kind, MsgTypes::Register);
    assert_eq!(back.data, Some("alice".to_string()));
    assert_eq!(back.data_list, None);
}

#[test]
fn decode_unknown_kind() {
    assert!(matches!(decode("{\"messageType\":\"ping\"}"), Err(DecodeError::UnknownKind)));
}

#[test]
fn decode_malformed_text() {
    assert!(matches!(decode("not a frame"), Err(DecodeError::Malformed)));
    assert!(matches!(decode(""), Err(DecodeError::Malformed)));
    assert!(matches!(decode("{"), Err(DecodeError::Malformed)));
    assert!(matches!(decode("{}"), Err(DecodeError::Malformed)));
    assert!(matches!(decode("{\"messageType\":\"users\"}trailing"), Err(DecodeError::Malformed)));
}

#[test]
fn decode_wrong_field_shape() {
    assert!(matches!(
        decode("{\"messageType\":\"users\",\"dataArray\":\"alice\"}"),
        Err(DecodeError::Malformed)
    ));
    assert!(matches!(
        decode("{\"messageType\":\"register\",\"data\":[\"alice\"]}"),
        Err(DecodeError::Malformed)
    ));
    assert!(matches!(decode("{\"messageType\":null}"), Err(DecodeError::Malformed)));
}

#[test]
fn decode_first_field_occurrence_wins() {
    let back = decode("{\"messageType\":\"register\",\"data\":\"a\",\"data\":\"b\"}").unwrap();
    assert_eq!(back.data, Some("a".to_string()));
}

#[test]
fn chat_round_trip() {
    let m = decode_chat(&encode_chat("bob", "hi there")).unwrap();
    assert_eq!(m.sender, "bob");
    assert_eq!(m.text, "hi there");
}

#[test]
fn chat_missing_fields_are_empty() {
    let m = decode_chat("{}").unwrap();
    assert_eq!(m.sender, "");
    assert_eq!(m.text, "");
    let m = decode_chat("{\"message\":\"hi\"}").unwrap();
    assert_eq!(m.sender, "");
    assert_eq!(m.text, "hi");
}

#[test]
fn chat_malformed_payload() {
    assert!(matches!(decode_chat("hi"), Err(DecodeError::Malformed)));
    assert!(matches!(decode_chat("{\"from\":[\"a\"]}"), Err(DecodeError::Malformed)));
}
