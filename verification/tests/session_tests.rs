use chat_core::codec::encode;
use chat_core::codec::DecodeError;
use chat_core::codec::Envelope;
use chat_core::codec::MsgTypes;
use chat_core::session::ConnState;
use chat_core::session::SessionState;
use chat_core::view::avatar_url;

fn users_frame(names: &[&str]) -> String {
    let e = Envelope {
        kind: MsgTypes::Users,
        data: None,
        data_list: Some(names.iter().map(|s| s.to_string()).collect()),
    };
    encode(&e)
}

fn message_frame(from: &str, text: &str) -> String {
    format!(
        "{{\"messageType\":\"message\",\"data\":\"{{\\\"from\\\":\\\"{}\\\",\\\"message\\\":\\\"{}\\\"}}\"}}",
        from, text
    )
}

#[test]
fn start_returns_register_envelope() {
    let (st, env) = SessionState::start("alice");
    assert!(st.roster.is_empty());
    assert!(st.log.is_empty());
    assert_eq!(st.self_name, "alice");
    assert_eq!(st.conn, ConnState::Registering);
    assert_eq!(env.kind, MsgTypes::Register);
    assert_eq!(env.data, Some("alice".to_string()));
    assert_eq!(env.data_list, None);
}

#[test]
fn registration_transition_is_optimistic() {
    let (mut st, _env) = SessionState::start("alice");
    st.registration_sent();
    assert_eq!(st.conn, ConnState::Active);
}

#[test]
fn users_snapshot_fills_roster() {
    let (mut st, _) = SessionState::start("alice");
    let r = st.apply_frame("{\"messageType\":\"users\",\"dataArray\":[\"alice\",\"bob\"]}");
    assert!(r.is_ok());
    assert_eq!(st.roster.len(), 2);
    assert_eq!(st.roster[0].name, "alice");
    assert_eq!(st.roster[0].avatar_url, avatar_url("alice"));
    assert_eq!(st.roster[1].name, "bob");
    assert_eq!(st.roster[1].avatar_url, avatar_url("bob"));
}

#[test]
fn roster_replacement_not_merge() {
    let (mut st, _) = SessionState::start("alice");
    st.apply_frame(&users_frame(&["a", "b", "c"])).unwrap();
    st.apply_frame(&users_frame(&["x"])).unwrap();
    assert_eq!(st.roster.len(), 1);
    assert_eq!(st.roster[0].name, "x");
}

#[test]
fn roster_keeps_duplicates_and_order() {
    let (mut st, _) = SessionState::start("alice");
    st.apply_frame(&users_frame(&["b", "a", "b"])).unwrap();
    let names: Vec<&str> = st.roster.iter().map(|u| u.name.as_str()).collect();
    assert_eq!(names, vec!["b", "a", "b"]);
}

#[test]
fn users_without_list_empties_roster() {
    let (mut st, _) = SessionState::start("alice");
    st.apply_frame(&users_frame(&["a"])).unwrap();
    st.apply_frame("{\"messageType\":\"users\"}").unwrap();
    assert!(st.roster.is_empty());
}

#[test]
fn message_appends_to_log() {
    let (mut st, _) = SessionState::start("alice");
    let r = st.apply_frame(
        "{\"messageType\":\"message\",\"data\":\"{\\\"from\\\":\\\"bob\\\",\\\"message\\\":\\\"hi\\\"}\"}",
    );
    assert!(r.is_ok());
    assert_eq!(st.log.len(), 1);
    assert_eq!(st.log[0].sender, "bob");
    assert_eq!(st.log[0].text, "hi");
}

#[test]
fn log_keeps_arrival_order() {
    let (mut st, _) = SessionState::start("alice");
    st.apply_frame(&message_frame("bob", "one")).unwrap();
    st.apply_frame(&message_frame("carol", "two")).unwrap();
    st.apply_frame(&message_frame("bob", "three")).unwrap();
    assert_eq!(st.log.len(), 3);
    let texts: Vec<&str> = st.log.iter().map(|m| m.text.as_str()).collect();
    assert_eq!(texts, vec!["one", "two", "three"]);
    assert_eq!(st.log[0].sender, "bob");
    assert_eq!(st.log[1].sender, "carol");
}

#[test]
fn unknown_sender_still_appended() {
    let (mut st, _) = SessionState::start("alice");
    st.apply_frame(&users_frame(&["alice"])).unwrap();
    let r = st.apply_frame(&message_frame("stranger", "hello"));
    assert!(r.is_ok());
    assert_eq!(st.log.len(), 1);
    assert_eq!(st.log[0].sender, "stranger");
}

#[test]
fn malformed_frame_changes_nothing() {
    let (mut st, _) = SessionState::start("alice");
    st.apply_frame(&users_frame(&["a", "b"])).unwrap();
    st.apply_frame(&message_frame("a", "hi")).unwrap();
    let r = st.apply_frame("this is not a frame");
    assert!(matches!(r, Err(DecodeError::Malformed)));
    assert_eq!(st.roster.len(), 2);
    assert_eq!(st.log.len(), 1);
    let r = st.apply_frame("{\"messageType\":\"gossip\"}");
    assert!(matches!(r, Err(DecodeError::UnknownKind)));
    assert_eq!(st.roster.len(), 2);
    assert_eq!(st.log.len(), 1);
}

#[test]
fn bad_nested_payload_is_dropped_not_fatal() {
    let (mut st, _) = SessionState::start("alice");
    let r = st.apply_frame("{\"messageType\":\"message\",\"data\":\"not nested\"}");
    assert!(matches!(r, Err(DecodeError::Malformed)));
    assert!(st.log.is_empty());
    let r = st.apply_frame("{\"messageType\":\"message\"}");
    assert!(matches!(r, Err(DecodeError::Malformed)));
    assert!(st.log.is_empty());
}

#[test]
fn register_envelope_is_silently_discarded() {
    let (mut st, _) = SessionState::start("alice");
    let r = st.apply_frame("{\"messageType\":\"register\",\"data\":\"bob\"}");
    assert!(r.is_ok());
    assert!(st.roster.is_empty());
    assert!(st.log.is_empty());
}

#[test]
fn submit_empty_is_rejected() {
    let (st, _) = SessionState::start("alice");
    let out = st.submit("");
    assert!(out.is_none());
    assert!(st.roster.is_empty());
    assert!(st.log.is_empty());
}

#[test]
fn submit_builds_message_envelope() {
    let (st, _) = SessionState::start("alice");
    let env = st.submit("hi").unwrap();
    assert_eq!(env.kind, MsgTypes::Message);
    assert_eq!(env.data, Some("{\"from\":\"alice\",\"message\":\"hi\"}".to_string()));
    assert_eq!(env.data_list, None);
    assert!(st.log.is_empty());
}

#[test]
fn submit_round_trip_reaches_log() {
    let (mut st, _) = SessionState::start("alice");
    let env = st.submit("hello all").unwrap();
    let frame = encode(&env);
    st.apply_frame(&frame).unwrap();
    assert_eq!(st.log.len(), 1);
    assert_eq!(st.log[0].sender, "alice");
    assert_eq!(st.log[0].text, "hello all");
}
